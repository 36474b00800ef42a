use flashr::cli::{FlashrCli, Mode};
use flashr::color::{Color, LinearGradient};
use flashr::deck::{validate_deck, Card, Deck, Face};
use flashr::flashcards::{FlashcardWidget, WrappingIndex};
use flashr::match_faces::MatchAnswerWidget;
use flashr::render_utils::{BoxOffsets, BOT, LEFT, RIGHT, TOP};
use flashr::{DeckCard, ModeArguments, Progress};

#[test]
fn verify_cli() {
    let cli = FlashrCli {
        problem_count: Some(10),
        faces: Some(vec![String::from("Front")]),
        line: false,
        mode: Mode::Match,
        paths: vec![String::from("./decks")],
    };
    assert_eq!(cli.problem_count, Some(10));
    assert_eq!(cli.mode, Mode::Match);
    assert_eq!(cli.paths.len(), 1);
}

#[test]
fn mode_parses_case_insensitively() {
    assert_eq!(Mode::parse("match"), Some(Mode::Match));
    assert_eq!(Mode::parse("MATCH"), Some(Mode::Match));
    assert_eq!(Mode::parse("Flash"), Some(Mode::Flash));
    assert_eq!(Mode::parse("type"), Some(Mode::Type));
    assert_eq!(Mode::parse("quiz"), None);
    assert_eq!(Mode::parse(""), None);
}

#[test]
fn rainbow_gradient_stops() {
    let g = LinearGradient::rainbow();
    assert_eq!(g.colors.len(), 5);
    assert_eq!(g.colors[0], Color::new(0xFF, 0x00, 0x00));
    assert_eq!(g.colors[4], Color::new(0x00, 0x00, 0xFF));
    let custom = LinearGradient::new(vec![Color::new(1, 2, 3)]);
    assert_eq!(custom.colors[0], Color::new(1, 2, 3));
}

#[test]
fn box_offsets_flags() {
    let none = BoxOffsets::new();
    assert_eq!(none.vertical(), 0);
    assert_eq!(none.horizontal(), 0);

    let all = BoxOffsets::new().top().bot().left().right();
    assert!(all.has(TOP) && all.has(BOT) && all.has(LEFT) && all.has(RIGHT));
    assert_eq!(all.vertical(), 2);
    assert_eq!(all.horizontal(), 2);

    let top_left = BoxOffsets::new().top().left();
    assert_eq!(top_left.vertical(), 1);
    assert_eq!(top_left.horizontal(), 1);
    assert!(!top_left.has(RIGHT));
}

#[test]
fn wrapping_index_steps_and_wraps() {
    let mut idx = WrappingIndex::new(3);
    assert_eq!(idx.index, 0);
    assert_eq!(idx.max_index(), 2);
    assert_eq!(idx.next_index(), 1);
    assert_eq!(idx.prev_index(), 2);

    idx.increment();
    idx.increment();
    assert_eq!(idx.index, 2);
    idx.increment();
    assert_eq!(idx.index, 0);
    idx.decrement();
    assert_eq!(idx.index, 2);
    idx.set(1);
    assert_eq!(idx.index, 1);
    idx.set(99);
    assert_eq!(idx.index, 2);
}

#[test]
fn widget_builders_carry_data() {
    let fw = FlashcardWidget::new(
        String::from("Front"),
        Face::Single(String::from("value")),
        String::from("prev"),
        String::from("next"),
    );
    assert_eq!(fw.face_name, "Front");
    assert_eq!(fw.prev, "prev");
    assert_eq!(fw.next, "next");

    let aw = MatchAnswerWidget::new(String::from("an answer"), 2);
    assert_eq!(aw.answer, "an answer");
    assert_eq!(aw.answer_index, 2);
    assert!(aw.outcome.is_none());
    let aw = aw.answered((true, false));
    assert_eq!(aw.outcome, Some((true, false)));
}

#[test]
fn progress_counts() {
    let mut p = Progress::new();
    p.add_correct();
    p.add_incorrect();
    p.add_correct();
    assert_eq!(p.correct, 2);
    assert_eq!(p.total, 3);
}

fn two_face_deck(name: &str, values: &[(&str, &str)]) -> Deck {
    let deck = Deck {
        name: String::from(name),
        faces: vec![String::from("Front"), String::from("Back")],
        cards: values
            .iter()
            .map(|(f, b)| {
                Card::new(vec![
                    Some(Face::Single(String::from(*f))),
                    Some(Face::Single(String::from(*b))),
                ])
            })
            .collect(),
    };
    validate_deck(deck).expect("Unable to validate deck")
}

#[test]
fn mode_arguments_filter_pool() {
    let decks = vec![
        two_face_deck("A", &[("a1", "b1"), ("a2", "b2")]),
        two_face_deck("B", &[("c1", "d1")]),
    ];

    let all = ModeArguments::new(&decks, None, None, false);
    assert_eq!(all.deck_cards.len(), 3);
    assert!(all.deck_cards.contains(&DeckCard { deck: 1, card: 0 }));

    let filtered = ModeArguments::new(
        &decks,
        Some(5),
        Some(vec![String::from("Front")]),
        true,
    );
    assert_eq!(filtered.deck_cards.len(), 3);
    assert_eq!(filtered.problem_count, Some(5));
    assert!(filtered.line);

    let none = ModeArguments::new(&decks, None, Some(vec![String::from("Missing")]), false);
    assert!(none.deck_cards.is_empty());
}

#[test]
fn possible_faces_lists_present_indices() {
    let deck = Deck {
        name: String::from("Gaps"),
        faces: vec![
            String::from("One"),
            String::from("Two"),
            String::from("Three"),
        ],
        cards: vec![Card::new(vec![
            Some(Face::Single(String::from("x"))),
            None,
            Some(Face::Single(String::from("z"))),
        ])],
    };
    let decks = vec![validate_deck(deck).expect("Unable to validate deck")];
    let dc = DeckCard::new(0, 0);
    assert_eq!(dc.possible_faces(&decks), vec![0, 2]);
}
