use flashr::deck::{
    str_contains, validate_deck, validate_decks, Card, CardError, CardId, Deck, DeckError, Face,
};

fn single(s: &str) -> Option<Face> {
    Some(Face::Single(String::from(s)))
}

fn multi(vals: &[&str]) -> Option<Face> {
    Some(Face::Multi(vals.iter().map(|v| String::from(*v)).collect()))
}

fn card(faces: Vec<Option<Face>>) -> Card {
    Card::from_faces(faces)
}

fn deck(name: &str, faces: &[&str], cards: Vec<Card>) -> Deck {
    Deck {
        name: String::from(name),
        faces: faces.iter().map(|f| String::from(*f)).collect(),
        cards,
    }
}

#[test]
fn load_deck_with_no_cards() {
    let deck = deck("Empty", &["Front", "Back"], vec![]);
    let deck = validate_deck(deck).expect("Unable to validate deck with no cards");
    assert!(deck.cards.is_empty());
}

#[test]
fn load_decks_with_subfaces() {
    let decks = vec![deck(
        "Subfaced",
        &["Front", "Back"],
        vec![
            card(vec![single("hello"), multi(&["hi", "hey"])]),
            card(vec![single("bye"), multi(&["ciao", "see you"])]),
        ],
    )];
    validate_decks(&decks).expect("Unable to validate decks");
    let decks: Vec<Deck> = decks
        .into_iter()
        .map(|d| validate_deck(d).expect("Unable to validate deck with subfaces"))
        .collect();
    assert!(decks.iter().any(|deck| {
        deck.cards.iter().any(|card| {
            (0..card.face_count()).any(|i| matches!(card.face_at(i), Some(Face::Multi(_))))
        })
    }));
}

#[test]
fn load_deck_not_enough_faces() {
    let deck = deck("One", &["Front"], vec![]);
    assert!(matches!(
        validate_deck(deck),
        Err(DeckError::NotEnoughFaces(_))
    ));
}

#[test]
fn load_deck_duplicate_faces() {
    let deck = deck("Dup", &["Front", "Back", "Front"], vec![]);
    assert!(matches!(
        validate_deck(deck),
        Err(DeckError::DuplicateFace(_, _))
    ));
}

#[test]
fn load_deck_not_enough_card_faces() {
    let deck = deck(
        "Short",
        &["Front", "Back", "Extra"],
        vec![card(vec![single("a"), single("b")])],
    );
    assert!(matches!(
        validate_deck(deck),
        Err(DeckError::InvalidCard(_, CardError::NotEnoughFaces(_, _)))
    ));
}

#[test]
fn load_deck_too_many_card_faces() {
    let deck = deck(
        "Long",
        &["Front", "Back"],
        vec![card(vec![single("a"), single("b"), single("c")])],
    );
    assert!(matches!(
        validate_deck(deck),
        Err(DeckError::InvalidCard(_, CardError::TooManyFaces(_, _)))
    ));
}

#[test]
fn load_deck_not_enough_usable_card_faces() {
    let deck = deck(
        "Unusable",
        &["Front", "Back", "Extra"],
        vec![card(vec![single("a"), None, None])],
    );
    assert!(matches!(
        validate_deck(deck),
        Err(DeckError::InvalidCard(_, CardError::NotEnoughUsableFaces(_)))
    ));
}

#[test]
fn load_deck_empty_multi_face() {
    let deck = deck(
        "EmptyMulti",
        &["Front", "Back", "Extra"],
        vec![card(vec![single("a"), single("b"), multi(&[])])],
    );
    assert!(matches!(
        validate_deck(deck),
        Err(DeckError::InvalidCard(_, CardError::EmptyFace(_)))
    ));
}

#[test]
fn load_deck_duplicate_card_front() {
    let deck = deck(
        "DupFront",
        &["Front", "Back"],
        vec![
            card(vec![single("same"), single("b1")]),
            card(vec![single("same"), single("b2")]),
        ],
    );
    assert!(matches!(
        validate_deck(deck),
        Err(DeckError::InvalidCard(_, CardError::DuplicateFront(_)))
    ));
}

#[test]
fn load_deck_duplicate_card_front_subfaced() {
    let deck = deck(
        "DupFrontSub",
        &["Front", "Back"],
        vec![
            card(vec![multi(&["x", "y"]), single("b1")]),
            card(vec![multi(&["x", "y"]), single("b2")]),
        ],
    );
    assert!(matches!(
        validate_deck(deck),
        Err(DeckError::InvalidCard(_, CardError::DuplicateFront(_)))
    ));
}

#[test]
fn load_decks_duplicate_deck_names() {
    let decks = vec![
        deck("Same", &["Front", "Back"], vec![]),
        deck("Same", &["Front", "Back"], vec![]),
    ];
    assert!(matches!(
        validate_decks(&decks),
        Err(DeckError::DuplicateDeckNames(_))
    ));
}

#[test]
fn face_display_and_separator() {
    let plain = Face::Multi(vec![String::from("one"), String::from("two")]);
    assert_eq!(plain.infer_separator(), ", ");
    assert_eq!(plain.join(plain.infer_separator()), "one, two");
    assert_eq!(plain.display(), "one, two");

    let comma = Face::Multi(vec![String::from("a, b"), String::from("c")]);
    assert_eq!(comma.infer_separator(), "; ");
    assert_eq!(comma.display(), "a, b; c");

    let single_face = Face::Single(String::from("hello, world"));
    assert_eq!(single_face.display(), "hello, world");
    assert!(single_face.contains(","));
    assert!(!plain.contains(","));
}

#[test]
fn face_equality_is_structural() {
    let a = Face::Single(String::from("x"));
    let b = Face::Single(String::from("x"));
    let c = Face::Multi(vec![String::from("x")]);
    assert!(a == b);
    assert!(a != c);
    let m1 = Face::Multi(vec![String::from("x"), String::from("y")]);
    let m2 = Face::Multi(vec![String::from("x"), String::from("y")]);
    let m3 = Face::Multi(vec![String::from("y"), String::from("x")]);
    assert!(m1 == m2);
    assert!(m1 != m3);
}

#[test]
fn card_front_and_join() {
    let c = card(vec![None, single("front"), single("back")]);
    assert_eq!(c.front_string(), "front");
    assert_eq!(c.join(" | "), "front | back");

    let c2 = Card::new(vec![single("a"), single("b")]);
    assert!(matches!(c2.front(), Some(Face::Single(s)) if s == "a"));
}

#[test]
fn card_id_is_deck_and_front() {
    let d = deck(
        "Capitals",
        &["Country", "Capital"],
        vec![card(vec![single("Japan"), single("Tokyo")])],
    );
    let id = CardId::get(&d, &d.cards[0]);
    assert_eq!(id.0, "Capitals:Japan");
}

#[test]
fn str_contains_finds_substrings() {
    assert!(str_contains("hello, world", ", "));
    assert!(str_contains("abc", ""));
    assert!(str_contains("abc", "abc"));
    assert!(!str_contains("abc", "abcd"));
    assert!(!str_contains("abc", "ac"));
    assert!(str_contains("ひらがな", "らが"));
}

#[test]
fn join_random_keeps_values() {
    let rng = &mut rand::rng();
    let face = Face::Multi(vec![
        String::from("one"),
        String::from("two"),
        String::from("three"),
    ]);
    for _ in 0..50 {
        let joined = face.join_random(", ", rng);
        let mut parts: Vec<&str> = joined.split(", ").collect();
        parts.sort();
        assert_eq!(parts, vec!["one", "three", "two"]);
    }
    let single_face = Face::Single(String::from("only"));
    assert_eq!(single_face.join_random(", ", rng), "only");
}
