//! Core of a terminal flashcard quiz: a weighted sampling container, a
//! performance-based weighting model, and a generator of four-option
//! matching problems with mutually distinct answers.

pub mod cli;
pub mod color;
pub mod deck;
pub mod flashcards;
pub mod match_faces;
pub mod random;
pub mod render_utils;
pub mod stats;
pub mod weighted_list;

use crate::deck::{count_present, deck_cards_sized, Deck, DeckError};
use crate::stats::StatsError;
use vstd::prelude::*;

verus! {

/// A card position in the loaded decks: deck index and card index. Cards
/// are referred to by indices, not references, because the same card takes
/// part in the sampling container, the seen-answer scan, and the assembled
/// problem at once.
#[derive(Clone, Copy, PartialEq, Eq, Structural, Debug)]
pub struct DeckCard {
    pub deck: usize,
    pub card: usize,
}

impl DeckCard {
    pub open spec fn valid(&self, decks: Seq<Deck>) -> bool {
        &&& (self.deck as int) < decks.len()
        &&& (self.card as int) < decks[self.deck as int].cards@.len()
    }

    /// The faces of this card's sequence, viewed through the decks.
    pub open spec fn card_view(&self, decks: Seq<Deck>) -> Seq<Option<deck::FaceVal>> {
        decks[self.deck as int].cards@[self.card as int]@
    }

    pub fn new(deck: usize, card: usize) -> (r: DeckCard)
        ensures
            r.deck == deck,
            r.card == card,
    {
        DeckCard { deck, card }
    }

    /// The indices of this card's present faces, in face order.
    pub fn possible_faces(&self, decks: &Vec<Deck>) -> (r: Vec<usize>)
        requires
            self.valid(decks@),
        ensures
            r@.len() == count_present(self.card_view(decks@)),
            forall|t: int|
                0 <= t < r@.len() ==> (#[trigger] r@[t]) < self.card_view(decks@).len()
                    && self.card_view(decks@)[r@[t] as int] is Some,
            forall|t1: int, t2: int| 0 <= t1 < t2 < r@.len() ==> r@[t1] < r@[t2],
            forall|i: int|
                0 <= i < self.card_view(decks@).len() && self.card_view(decks@)[i] is Some
                    ==> r@.contains(i as usize),
    {
        let ghost cv = self.card_view(decks@);
        let card = &decks[self.deck].cards[self.card];
        let n = card.face_count();
        let mut buf: Vec<usize> = Vec::with_capacity(n);
        let mut i: usize = 0;
        while i < n
            invariant
                i <= n,
                n == cv.len(),
                cv == card@,
                buf@.len() == count_present(cv.take(i as int)),
                forall|t: int|
                    0 <= t < buf@.len() ==> (#[trigger] buf@[t]) < i && cv[buf@[t] as int] is Some,
                forall|t1: int, t2: int| 0 <= t1 < t2 < buf@.len() ==> buf@[t1] < buf@[t2],
                forall|j: int| 0 <= j < i && cv[j] is Some ==> buf@.contains(j as usize),
            decreases n - i,
        {
            proof {
                deck::lemma_count_present_take_step(cv, i as int);
            }
            let ghost before = buf@;
            if card.face_at(i).is_some() {
                buf.push(i);
                proof {
                    assert(forall|j: int|
                        0 <= j < i && cv[j] is Some ==> before.contains(j as usize));
                    assert(forall|j: usize| before.contains(j) ==> buf@.contains(j)) by {
                        assert(forall|t: int| 0 <= t < before.len() ==> buf@[t] == before[t]);
                    }
                    assert(buf@.contains(i)) by {
                        assert(buf@[buf@.len() - 1] == i);
                    }
                }
            }
            i = i + 1;
        }
        proof {
            assert(cv.take(cv.len() as int) =~= cv);
        }
        buf
    }
}

/// A face filter as sequences of names; `None` means no restriction.
pub open spec fn filter_view(faces: Option<Vec<String>>) -> Option<Seq<Seq<char>>> {
    match faces {
        None => None,
        Some(v) => Some(v.deep_view()),
    }
}

pub open spec fn name_in_filter(filter: Seq<Seq<char>>, name: Seq<char>) -> bool {
    exists|i: int| 0 <= i < filter.len() && filter[i] == name
}

/// Whether a card may be asked under the given face filter: with no
/// filter, every card; otherwise the card must have a present face whose
/// name the filter selects (that face can serve as the question face).
pub open spec fn card_eligible(decks: Seq<Deck>, filter: Option<Seq<Seq<char>>>, dc: DeckCard) -> bool {
    &&& dc.valid(decks)
    &&& match filter {
        None => true,
        Some(fil) => exists|i: int|
            0 <= i < decks[dc.deck as int].faces@.len() && name_in_filter(
                fil,
                (#[trigger] decks[dc.deck as int].faces@[i])@,
            ) && dc.card_view(decks)[i] is Some,
    }
}

/// The first `c` cards of deck `d` that are eligible under the filter, in
/// card order.
pub open spec fn eligible_cards_prefix(
    decks: Seq<Deck>,
    filter: Option<Seq<Seq<char>>>,
    d: int,
    c: int,
) -> Seq<DeckCard>
    decreases c,
{
    if c <= 0 {
        Seq::empty()
    } else {
        eligible_cards_prefix(decks, filter, d, c - 1) + if card_eligible(
            decks,
            filter,
            DeckCard { deck: d as usize, card: (c - 1) as usize },
        ) {
            seq![DeckCard { deck: d as usize, card: (c - 1) as usize }]
        } else {
            Seq::empty()
        }
    }
}

/// The eligible cards of the first `d` decks, in deck order then card
/// order: the pool a session is seeded with.
pub open spec fn eligible_pool_prefix(
    decks: Seq<Deck>,
    filter: Option<Seq<Seq<char>>>,
    d: int,
) -> Seq<DeckCard>
    decreases d,
{
    if d <= 0 {
        Seq::empty()
    } else {
        eligible_pool_prefix(decks, filter, d - 1) + eligible_cards_prefix(
            decks,
            filter,
            d - 1,
            decks[d - 1].cards@.len() as int,
        )
    }
}

/// The whole eligible pool of `decks` under `filter`.
pub open spec fn eligible_pool(decks: Seq<Deck>, filter: Option<Seq<Seq<char>>>) -> Seq<DeckCard> {
    eligible_pool_prefix(decks, filter, decks.len() as int)
}

/// The arguments a quiz mode runs with: an optional problem count, an
/// optional face filter, the pool of eligible card positions, and whether
/// the weight line is drawn.
pub struct ModeArguments {
    pub problem_count: Option<usize>,
    pub faces: Option<Vec<String>>,
    pub deck_cards: Vec<DeckCard>,
    pub line: bool,
}

impl ModeArguments {
    /// Collects the pool of eligible cards: exactly those cards that
    /// `card_eligible` admits under the filter — every card when no faces
    /// are selected, and otherwise the cards with a present face whose
    /// name the filter selects.
    pub fn new(
        decks: &Vec<Deck>,
        problem_count: Option<usize>,
        faces: Option<Vec<String>>,
        line: bool,
    ) -> (r: ModeArguments)
        requires
            forall|dd: int| 0 <= dd < decks@.len() ==> deck_cards_sized(&(#[trigger] decks@[dd])),
        ensures
            r.problem_count == problem_count,
            r.line == line,
            r.faces == faces,
            r.deck_cards@ == eligible_pool(decks@, filter_view(faces)),
            forall|t: int|
                0 <= t < r.deck_cards@.len() ==> card_eligible(
                    decks@,
                    filter_view(faces),
                    #[trigger] r.deck_cards@[t],
                ),
            forall|dd: usize, cc: usize|
                (dd as int) < decks@.len() && (cc as int) < decks@[dd as int].cards@.len()
                    && card_eligible(decks@, filter_view(faces), (DeckCard { deck: dd, card: cc }))
                    ==> #[trigger] r.deck_cards@.contains((DeckCard { deck: dd, card: cc })),
    {
        let ghost fil = filter_view(faces);
        let mut deck_cards: Vec<DeckCard> = Vec::new();
        match &faces {
            Some(selected) => {
                let mut d: usize = 0;
                while d < decks.len()
                    invariant
                        d <= decks@.len(),
                        fil == Some(selected.deep_view()),
                        deck_cards@ == eligible_pool_prefix(decks@, fil, d as int),
                        forall|dd: int|
                            0 <= dd < decks@.len() ==> deck_cards_sized(&(#[trigger] decks@[dd])),
                        forall|t: int|
                            0 <= t < deck_cards@.len() ==> card_eligible(
                                decks@,
                                fil,
                                #[trigger] deck_cards@[t],
                            ),
                        forall|dd: usize, cc: usize|
                            (dd as int) < d && (cc as int) < decks@[dd as int].cards@.len()
                                && card_eligible(decks@, fil, (DeckCard { deck: dd, card: cc }))
                                ==> #[trigger] deck_cards@.contains(
                                (DeckCard { deck: dd, card: cc }),
                            ),
                    decreases decks@.len() - d,
                {
                    let deck = &decks[d];
                    let face_total = deck.faces.len();
                    let mut deck_faces: Vec<usize> = Vec::new();
                    let mut i: usize = 0;
                    while i < face_total
                        invariant
                            i <= face_total,
                            d < decks@.len(),
                            face_total == decks@[d as int].faces@.len(),
                            deck == decks@[d as int],
                            fil == Some(selected.deep_view()),
                            forall|t: int|
                                0 <= t < deck_faces@.len() ==> (#[trigger] deck_faces@[t])
                                    < face_total && name_in_filter(
                                    selected.deep_view(),
                                    decks@[d as int].faces@[deck_faces@[t] as int]@,
                                ),
                            forall|ii: int|
                                0 <= ii < i && name_in_filter(
                                    selected.deep_view(),
                                    (#[trigger] decks@[d as int].faces@[ii])@,
                                ) ==> deck_faces@.contains(ii as usize),
                        decreases face_total - i,
                    {
                        let ghost before = deck_faces@;
                        if string_vec_contains(selected, &deck.faces[i]) {
                            deck_faces.push(i);
                            proof {
                                assert(deck_faces@[deck_faces@.len() - 1] == i);
                                assert(forall|t: int|
                                    0 <= t < before.len() ==> deck_faces@[t] == before[t]);
                                assert forall|j: usize| before.contains(j) implies deck_faces@
                                    .contains(j) by {
                                    let t = choose|t: int|
                                        0 <= t < before.len() && before[t] == j;
                                    assert(deck_faces@[t] == j);
                                }
                            }
                        }
                        i = i + 1;
                    }
                    let mut c: usize = 0;
                    let card_total = deck.cards.len();
                    while c < card_total
                        invariant
                            c <= card_total,
                            d < decks@.len(),
                            card_total == decks@[d as int].cards@.len(),
                            face_total == decks@[d as int].faces@.len(),
                            deck == decks@[d as int],
                            fil == Some(selected.deep_view()),
                            deck_cards@ == eligible_pool_prefix(decks@, fil, d as int)
                                + eligible_cards_prefix(decks@, fil, d as int, c as int),
                            deck_cards_sized(&decks@[d as int]),
                            forall|t: int|
                                0 <= t < deck_faces@.len() ==> (#[trigger] deck_faces@[t])
                                    < decks@[d as int].faces@.len() && name_in_filter(
                                    selected.deep_view(),
                                    decks@[d as int].faces@[deck_faces@[t] as int]@,
                                ),
                            forall|ii: int|
                                0 <= ii < decks@[d as int].faces@.len() && name_in_filter(
                                    selected.deep_view(),
                                    (#[trigger] decks@[d as int].faces@[ii])@,
                                ) ==> deck_faces@.contains(ii as usize),
                            forall|t: int|
                                0 <= t < deck_cards@.len() ==> card_eligible(
                                    decks@,
                                    fil,
                                    #[trigger] deck_cards@[t],
                                ),
                            forall|dd: usize, cc: usize|
                                (dd as int) < d && (cc as int) < decks@[dd as int].cards@.len()
                                    && card_eligible(
                                    decks@,
                                    fil,
                                    (DeckCard { deck: dd, card: cc }),
                                ) ==> #[trigger] deck_cards@.contains(
                                (DeckCard { deck: dd, card: cc }),
                            ),
                            forall|cc: usize|
                                (cc as int) < c && card_eligible(
                                    decks@,
                                    fil,
                                    (DeckCard { deck: d, card: cc }),
                                ) ==> #[trigger] deck_cards@.contains(
                                (DeckCard { deck: d, card: cc }),
                            ),
                        decreases card_total - c,
                    {
                        let card = &deck.cards[c];
                        proof {
                            assert(card@.len() == decks@[d as int].faces@.len());
                        }
                        let mut f: usize = 0;
                        let mut found: bool = false;
                        while f < deck_faces.len()
                            invariant
                                f <= deck_faces@.len(),
                                d < decks@.len(),
                                c < decks@[d as int].cards@.len(),
                                card == decks@[d as int].cards@[c as int],
                                card@.len() == decks@[d as int].faces@.len(),
                                fil == Some(selected.deep_view()),
                                forall|t: int|
                                    0 <= t < deck_faces@.len() ==> (#[trigger] deck_faces@[t])
                                        < decks@[d as int].faces@.len() && name_in_filter(
                                        selected.deep_view(),
                                        decks@[d as int].faces@[deck_faces@[t] as int]@,
                                    ),
                                found ==> card_eligible(
                                    decks@,
                                    fil,
                                    (DeckCard { deck: d, card: c }),
                                ),
                                !found ==> forall|t: int|
                                    0 <= t < f ==> card@[(#[trigger] deck_faces@[t]) as int] is None,
                            decreases deck_faces@.len() - f,
                        {
                            let fi = deck_faces[f];
                            if card.face_at(fi).is_some() {
                                found = true;
                            }
                            f = f + 1;
                        }
                        let ghost before = deck_cards@;
                        if found {
                            deck_cards.push(DeckCard { deck: d, card: c });
                        }
                        proof {
                            if !found {
                                assert forall|ii: int|
                                    0 <= ii < decks@[d as int].faces@.len() implies !(
                                name_in_filter(
                                    selected.deep_view(),
                                    (#[trigger] decks@[d as int].faces@[ii])@,
                                ) && (DeckCard { deck: d, card: c }).card_view(
                                    decks@,
                                )[ii] is Some) by {
                                    if name_in_filter(
                                        selected.deep_view(),
                                        decks@[d as int].faces@[ii]@,
                                    ) {
                                        assert(ii < face_total as int);
                                        let iu = ii as usize;
                                        assert(iu as int == ii);
                                        assert(deck_faces@.contains(iu));
                                        let t = choose|t: int|
                                            0 <= t < deck_faces@.len() && deck_faces@[t] == iu;
                                        assert(card@[deck_faces@[t] as int] is None);
                                        assert((DeckCard { deck: d, card: c }).card_view(
                                            decks@,
                                        ) == card@);
                                    }
                                }
                                assert(!card_eligible(
                                    decks@,
                                    fil,
                                    (DeckCard { deck: d, card: c }),
                                ));
                            } else {
                                assert(deck_cards@[deck_cards@.len() - 1] == (DeckCard {
                                    deck: d,
                                    card: c,
                                }));
                            }
                            assert(forall|t: int|
                                0 <= t < before.len() ==> deck_cards@[t] == before[t]);
                            assert forall|dd: usize, cc: usize|
                                (dd as int) < d && (cc as int) < decks@[dd as int].cards@.len()
                                    && card_eligible(
                                    decks@,
                                    fil,
                                    (DeckCard { deck: dd, card: cc }),
                                ) implies #[trigger] deck_cards@.contains(
                                (DeckCard { deck: dd, card: cc }),
                            ) by {
                                assert(before.contains((DeckCard { deck: dd, card: cc })));
                                let t = choose|t: int|
                                    0 <= t < before.len() && before[t] == (DeckCard {
                                        deck: dd,
                                        card: cc,
                                    });
                                assert(deck_cards@[t] == (DeckCard { deck: dd, card: cc }));
                            }
                            assert forall|cc: usize|
                                (cc as int) < c + 1 && card_eligible(
                                    decks@,
                                    fil,
                                    (DeckCard { deck: d, card: cc }),
                                ) implies #[trigger] deck_cards@.contains(
                                (DeckCard { deck: d, card: cc }),
                            ) by {
                                if (cc as int) < c {
                                    assert(before.contains((DeckCard { deck: d, card: cc })));
                                    let t = choose|t: int|
                                        0 <= t < before.len() && before[t] == (DeckCard {
                                            deck: d,
                                            card: cc,
                                        });
                                    assert(deck_cards@[t] == (DeckCard { deck: d, card: cc }));
                                } else {
                                    assert(cc == c);
                                    assert(found);
                                    assert(deck_cards@[deck_cards@.len() - 1] == (DeckCard {
                                        deck: d,
                                        card: c,
                                    }));
                                }
                            }
                            assert(eligible_cards_prefix(decks@, fil, d as int, c + 1)
                                == eligible_cards_prefix(decks@, fil, d as int, c as int) + if card_eligible(
                                decks@,
                                fil,
                                (DeckCard { deck: d, card: c }),
                            ) {
                                seq![DeckCard { deck: d, card: c }]
                            } else {
                                Seq::<DeckCard>::empty()
                            });
                            if found {
                                assert(deck_cards@ =~= eligible_pool_prefix(decks@, fil, d as int)
                                    + eligible_cards_prefix(decks@, fil, d as int, c + 1));
                            } else {
                                assert(eligible_cards_prefix(decks@, fil, d as int, c + 1)
                                    =~= eligible_cards_prefix(decks@, fil, d as int, c as int));
                            }
                        }
                        c = c + 1;
                    }
                    proof {
                        assert(eligible_pool_prefix(decks@, fil, d + 1) == eligible_pool_prefix(
                            decks@,
                            fil,
                            d as int,
                        ) + eligible_cards_prefix(
                            decks@,
                            fil,
                            d as int,
                            decks@[d as int].cards@.len() as int,
                        ));
                    }
                    d = d + 1;
                }
                proof {
                    assert(deck_cards@ == eligible_pool(decks@, fil));
                }
            },
            None => {
                let mut d: usize = 0;
                while d < decks.len()
                    invariant
                        d <= decks@.len(),
                        fil is None,
                        deck_cards@ == eligible_pool_prefix(decks@, fil, d as int),
                        forall|t: int|
                            0 <= t < deck_cards@.len() ==> card_eligible(
                                decks@,
                                fil,
                                #[trigger] deck_cards@[t],
                            ),
                        forall|dd: usize, cc: usize|
                            (dd as int) < d && (cc as int) < decks@[dd as int].cards@.len()
                                && card_eligible(decks@, fil, (DeckCard { deck: dd, card: cc }))
                                ==> #[trigger] deck_cards@.contains(
                                (DeckCard { deck: dd, card: cc }),
                            ),
                    decreases decks@.len() - d,
                {
                    let mut c: usize = 0;
                    let card_total = decks[d].cards.len();
                    while c < card_total
                        invariant
                            c <= card_total,
                            d < decks@.len(),
                            card_total == decks@[d as int].cards@.len(),
                            fil is None,
                            deck_cards@ == eligible_pool_prefix(decks@, fil, d as int)
                                + eligible_cards_prefix(decks@, fil, d as int, c as int),
                            forall|t: int|
                                0 <= t < deck_cards@.len() ==> card_eligible(
                                    decks@,
                                    fil,
                                    #[trigger] deck_cards@[t],
                                ),
                            forall|dd: usize, cc: usize|
                                (dd as int) < d && (cc as int) < decks@[dd as int].cards@.len()
                                    && card_eligible(
                                    decks@,
                                    fil,
                                    (DeckCard { deck: dd, card: cc }),
                                ) ==> #[trigger] deck_cards@.contains(
                                (DeckCard { deck: dd, card: cc }),
                            ),
                            forall|cc: usize|
                                (cc as int) < c ==> #[trigger] deck_cards@.contains(
                                (DeckCard { deck: d, card: cc }),
                            ),
                        decreases card_total - c,
                    {
                        let ghost before = deck_cards@;
                        deck_cards.push(DeckCard { deck: d, card: c });
                        proof {
                            assert(deck_cards@[deck_cards@.len() - 1] == (DeckCard {
                                deck: d,
                                card: c,
                            }));
                            assert(forall|t: int|
                                0 <= t < before.len() ==> deck_cards@[t] == before[t]);
                            assert forall|dd: usize, cc: usize|
                                (dd as int) < d && (cc as int) < decks@[dd as int].cards@.len()
                                    && card_eligible(
                                    decks@,
                                    fil,
                                    (DeckCard { deck: dd, card: cc }),
                                ) implies #[trigger] deck_cards@.contains(
                                (DeckCard { deck: dd, card: cc }),
                            ) by {
                                assert(before.contains((DeckCard { deck: dd, card: cc })));
                                let t = choose|t: int|
                                    0 <= t < before.len() && before[t] == (DeckCard {
                                        deck: dd,
                                        card: cc,
                                    });
                                assert(deck_cards@[t] == (DeckCard { deck: dd, card: cc }));
                            }
                            assert forall|cc: usize| (cc as int) < c + 1 implies #[trigger] deck_cards@
                                .contains((DeckCard { deck: d, card: cc })) by {
                                if (cc as int) < c {
                                    assert(before.contains((DeckCard { deck: d, card: cc })));
                                    let t = choose|t: int|
                                        0 <= t < before.len() && before[t] == (DeckCard {
                                            deck: d,
                                            card: cc,
                                        });
                                    assert(deck_cards@[t] == (DeckCard { deck: d, card: cc }));
                                } else {
                                    assert(cc == c);
                                    assert(deck_cards@[deck_cards@.len() - 1] == (DeckCard {
                                        deck: d,
                                        card: c,
                                    }));
                                }
                            }
                            assert(card_eligible(decks@, fil, (DeckCard { deck: d, card: c })));
                            assert(eligible_cards_prefix(decks@, fil, d as int, c + 1)
                                == eligible_cards_prefix(decks@, fil, d as int, c as int)
                                + seq![DeckCard { deck: d, card: c }]);
                            assert(deck_cards@ =~= eligible_pool_prefix(decks@, fil, d as int)
                                + eligible_cards_prefix(decks@, fil, d as int, c + 1));
                        }
                        c = c + 1;
                    }
                    proof {
                        assert(eligible_pool_prefix(decks@, fil, d + 1) == eligible_pool_prefix(
                            decks@,
                            fil,
                            d as int,
                        ) + eligible_cards_prefix(
                            decks@,
                            fil,
                            d as int,
                            decks@[d as int].cards@.len() as int,
                        ));
                    }
                    d = d + 1;
                }
                proof {
                    assert(deck_cards@ == eligible_pool(decks@, fil));
                }
            },
        }
        ModeArguments { problem_count, faces, deck_cards, line }
    }
}

/// Whether some string of `v` equals `s`.
pub fn string_vec_contains(v: &Vec<String>, s: &String) -> (r: bool)
    ensures
        r == name_in_filter(v.deep_view(), s@),
{
    let mut i: usize = 0;
    while i < v.len()
        invariant
            i <= v@.len(),
            forall|t: int| 0 <= t < i ==> v.deep_view()[t] != s@,
        decreases v@.len() - i,
    {
        proof {
            assert(v.deep_view()[i as int] == v@[i as int]@);
        }
        if v[i] == *s {
            return true;
        }
        i = i + 1;
    }
    false
}

/// A displayable prompt bound to its originating card and that card's
/// index within the sampling container.
pub struct PromptCard {
    pub prompt: String,
    pub deck_card: DeckCard,
    pub index: usize,
}

/// Running score of a session: problems answered correctly, and answered
/// at all.
#[derive(Clone, Copy, PartialEq, Eq, Structural, Debug)]
pub struct Progress {
    pub correct: usize,
    pub total: usize,
}

impl Progress {
    pub fn new() -> (r: Progress)
        ensures
            r.correct == 0,
            r.total == 0,
    {
        Progress { correct: 0, total: 0 }
    }

    pub fn add_correct(&mut self)
        requires
            old(self).correct < usize::MAX,
            old(self).total < usize::MAX,
        ensures
            final(self).correct == old(self).correct + 1,
            final(self).total == old(self).total + 1,
    {
        self.correct = self.correct + 1;
        self.total = self.total + 1;
    }

    pub fn add_incorrect(&mut self)
        requires
            old(self).total < usize::MAX,
        ensures
            final(self).correct == old(self).correct,
            final(self).total == old(self).total + 1,
    {
        self.total = self.total + 1;
    }
}

/// An error of the user-interface layer, carried as its message.
#[derive(Debug)]
pub enum UiError {
    IoError(String),
}

/// An error of argument handling: a deck has none of the requested faces.
#[derive(Debug)]
pub enum ArgError {
    DeckNotEnoughFaces(Vec<String>, String),
}

/// Any error the quiz can stop with.
#[derive(Debug)]
pub enum FlashrError {
    Deck(Box<DeckError>),
    Ui(UiError),
    DeckMismatch(String),
    Arg(ArgError),
    Stats(StatsError),
    Panic(String),
}

} // verus!
