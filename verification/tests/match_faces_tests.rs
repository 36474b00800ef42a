use flashr::deck::{validate_deck, Card, Deck, Face};
use flashr::match_faces::{MatchProblem, MatchProblemIterator};
use flashr::stats::Stats;
use flashr::{FlashrError, ModeArguments, Progress};

fn single(s: String) -> Option<Face> {
    Some(Face::Single(s))
}

/// A deck in the shape of the generator's usual input: three faces, every
/// value distinct across the whole deck.
fn test_deck(cards: usize) -> Deck {
    let deck = Deck {
        name: String::from("Deck 1"),
        faces: vec![
            String::from("Front"),
            String::from("Back"),
            String::from("Extra"),
        ],
        cards: (0..cards)
            .map(|i| {
                Card::new(vec![
                    single(format!("front {i}")),
                    single(format!("back {i}")),
                    single(format!("extra {i}")),
                ])
            })
            .collect(),
    };
    validate_deck(deck).expect("Unable to validate test deck")
}

fn problems_for(
    decks: Vec<Deck>,
    faces: Option<Vec<String>>,
    line: bool,
    stats: &mut Stats,
) -> MatchProblemIterator {
    let args = ModeArguments::new(&decks, None, faces, line);
    MatchProblemIterator::new(decks, args.deck_cards, stats, args.faces, args.line)
}

fn check_problem(problem: &MatchProblem) {
    assert_eq!(problem.answers.len(), 4);
    let corrects = problem
        .answers
        .iter()
        .filter(|(_, correct)| *correct)
        .count();
    assert_eq!(corrects, 1);
    assert!(problem.answers[problem.answer_index].1);

    // Each problem question is not present in the answers.
    assert!(problem
        .answers
        .iter()
        .all(|(answer, _)| answer.prompt != problem.question.prompt));
    // No two answers are the same.
    for (i, (answer, _)) in problem.answers.iter().enumerate() {
        for (j, (other, _)) in problem.answers.iter().enumerate() {
            if i != j {
                assert!(answer.prompt != other.prompt);
            }
        }
    }
}

#[test]
fn ensure_unique_question_answers() {
    let decks = vec![test_deck(8)];
    let stats = &mut Stats::new();
    let rng = &mut rand::rng();
    let problems = problems_for(decks, None, false, stats);

    for _ in 0..1000 {
        let problem = problems
            .next_problem(rng)
            .expect("Pool must not be empty")
            .expect("Unable to get problem");
        check_problem(&problem);
        assert!(problem.weights.is_none());
    }
}

#[test]
fn match_faces_ensure_unique_question_answers() {
    let decks = vec![test_deck(5), {
        let mut other = test_deck(5);
        other.name = String::from("Deck 2");
        other.cards = other
            .cards
            .into_iter()
            .enumerate()
            .map(|(i, _)| {
                Card::new(vec![
                    single(format!("other front {i}")),
                    single(format!("other back {i}")),
                    None,
                ])
            })
            .collect();
        validate_deck(other).expect("Unable to validate second test deck")
    }];
    let stats = &mut Stats::new();
    let rng = &mut rand::rng();
    let problems = problems_for(decks, None, false, stats);

    for _ in 0..1000 {
        let problem = problems
            .next_problem(rng)
            .expect("Pool must not be empty")
            .expect("Unable to get problem");
        check_problem(&problem);
    }
}

#[test]
fn iter_ensure_unique_question_answers() {
    let decks = vec![test_deck(6)];
    let stats = &mut Stats::new();
    let rng = &mut rand::rng();
    let faces = Some(vec![String::from("Front")]);
    let problems = problems_for(decks, faces, false, stats);

    for _ in 0..1000 {
        let problem = problems
            .next_problem(rng)
            .expect("Pool must not be empty")
            .expect("Unable to get problem");
        check_problem(&problem);
        // Under the face filter the question is always a Front value.
        assert!(problem.question.prompt.starts_with("front "));
    }
}

#[test]
fn fails_if_not_enough_unique_answers() {
    // Only three cards expose any answer face, so no four distinct
    // answers exist.
    let decks = vec![test_deck(3)];
    let stats = &mut Stats::new();
    let rng = &mut rand::rng();
    let problems = problems_for(decks, None, false, stats);

    let problem = problems.next_problem(rng).expect("Pool must not be empty");
    match problem {
        Err(FlashrError::DeckMismatch(msg)) => {
            assert!(msg.starts_with("Cannot find enough answers for question "));
            assert!(msg.contains(", which is a \""));
            assert!(msg.contains("\" face, from deck Deck 1, given answer face \""));
        }
        _ => panic!("expected a DeckMismatch"),
    }
}

#[test]
fn match_faces_fails_if_not_enough_unique_answers() {
    // Cards whose answer values coincide leave fewer than four distinct
    // answers even in a larger pool.
    let deck = Deck {
        name: String::from("Duplicates"),
        faces: vec![String::from("Front"), String::from("Back")],
        cards: (0..6)
            .map(|i| {
                Card::new(vec![single(format!("front {i}")), single(String::from("same"))])
            })
            .collect(),
    };
    let deck = validate_deck(deck).expect("Unable to validate duplicate cards test deck");
    let stats = &mut Stats::new();
    let rng = &mut rand::rng();
    let problems = problems_for(vec![deck], None, false, stats);

    let problem = problems.next_problem(rng).expect("Pool must not be empty");
    assert!(matches!(problem, Err(FlashrError::DeckMismatch(_))));
}

#[test]
fn iter_fails_if_not_enough_unique_answers() {
    let decks = vec![test_deck(3)];
    let stats = &mut Stats::new();
    let rng = &mut rand::rng();
    let faces = Some(vec![String::from("Back")]);
    let problems = problems_for(decks, faces, false, stats);

    let problem = problems.next_problem(rng).expect("Pool must not be empty");
    assert!(matches!(problem, Err(FlashrError::DeckMismatch(_))));
}

#[test]
fn empty_pool_ends_the_stream() {
    let stats = &mut Stats::new();
    let rng = &mut rand::rng();
    let problems = problems_for(vec![], None, false, stats);
    assert!(problems.next_problem(rng).is_none());
}

#[test]
fn weights_snapshot_follows_answers() {
    let decks = vec![test_deck(8)];
    let stats = &mut Stats::new();
    let rng = &mut rand::rng();
    let mut problems = problems_for(decks, None, true, stats);
    let mut progress = Progress::new();

    let problem = problems
        .next_problem(rng)
        .expect("Pool must not be empty")
        .expect("Unable to get problem");
    let weights = problem.weights.clone().expect("Weight line must be snapshot");
    assert_eq!(weights.len(), 8);
    assert!(weights.iter().all(|w| *w == 1000));

    // Answer wrong on purpose: both the question card and the chosen card
    // double their weight (0 correct, 1 incorrect: 1/1 + 1 = 2.0).
    let wrong = (problem.answer_index + 1) % 4;
    let was_correct = problems.record_answer(stats, &mut progress, &problem, wrong);
    assert!(!was_correct);
    assert_eq!(progress.total, 1);
    assert_eq!(progress.correct, 0);

    let next = problems
        .next_problem(rng)
        .expect("Pool must not be empty")
        .expect("Unable to get problem");
    let weights = next.weights.clone().expect("Weight line must be snapshot");
    let doubled = weights.iter().filter(|w| **w == 2000).count();
    let unchanged = weights.iter().filter(|w| **w == 1000).count();
    assert_eq!(doubled, 2);
    assert_eq!(unchanged, 6);
}

#[test]
fn correct_answer_halves_mastered_weight() {
    let decks = vec![test_deck(8)];
    let stats = &mut Stats::new();
    let rng = &mut rand::rng();
    let mut problems = problems_for(decks, None, true, stats);
    let mut progress = Progress::new();

    let problem = problems
        .next_problem(rng)
        .expect("Pool must not be empty")
        .expect("Unable to get problem");
    let was_correct =
        problems.record_answer(stats, &mut progress, &problem, problem.answer_index);
    assert!(was_correct);
    assert_eq!(progress.correct, 1);
    assert_eq!(progress.total, 1);

    let next = problems
        .next_problem(rng)
        .expect("Pool must not be empty")
        .expect("Unable to get problem");
    let weights = next.weights.clone().expect("Weight line must be snapshot");
    // The rewarded card fell to 1/2 = 500 units; the others kept 1000.
    assert_eq!(weights.iter().filter(|w| **w == 500).count(), 1);
    assert_eq!(weights.iter().filter(|w| **w == 1000).count(), 7);
}

#[test]
fn question_face_non_collision() {
    // Two cards share a Back value; when Back is the question face, the
    // card with the colliding Back must never appear as a wrong answer.
    let deck = Deck {
        name: String::from("Collide"),
        faces: vec![
            String::from("Front"),
            String::from("Back"),
            String::from("Extra"),
        ],
        cards: vec![
            Card::new(vec![
                single(String::from("f1")),
                single(String::from("shared")),
                single(String::from("e1")),
            ]),
            Card::new(vec![
                single(String::from("f2")),
                single(String::from("shared")),
                single(String::from("e2")),
            ]),
            Card::new(vec![
                single(String::from("f3")),
                single(String::from("s3")),
                single(String::from("e3")),
            ]),
            Card::new(vec![
                single(String::from("f4")),
                single(String::from("s4")),
                single(String::from("e4")),
            ]),
            Card::new(vec![
                single(String::from("f5")),
                single(String::from("s5")),
                single(String::from("e5")),
            ]),
        ],
    };
    let decks = vec![validate_deck(deck).expect("Unable to validate collision test deck")];
    let stats = &mut Stats::new();
    let rng = &mut rand::rng();
    let faces = Some(vec![String::from("Back")]);
    let args = ModeArguments::new(&decks, None, faces, false);
    let back_values: Vec<String> = decks[0]
        .cards
        .iter()
        .map(|card| match card.face_at(1) {
            Some(face) => face.display(),
            None => unreachable!(),
        })
        .collect();
    let problems = MatchProblemIterator::new(decks, args.deck_cards, stats, args.faces, false);

    for _ in 0..500 {
        let problem = problems
            .next_problem(rng)
            .expect("Pool must not be empty")
            .expect("Unable to get problem");
        let question_back = &back_values[problem.question.deck_card.card];
        for (answer, correct) in &problem.answers {
            if !correct {
                let answer_back = &back_values[answer.deck_card.card];
                assert_ne!(answer_back, question_back);
            }
        }
    }
}
