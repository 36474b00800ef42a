use flashr::deck::CardId;
use flashr::stats::{CardStats, Stats, Weight, WEIGHT_SCALE};

#[test]
fn weight_positive_for_samples() {
    let samples = [
        (0u32, 0u32),
        (1, 0),
        (0, 1),
        (10, 3),
        (3, 10),
        (1000, 1000),
        (u32::MAX, 0),
        (0, u32::MAX),
    ];
    for (correct, incorrect) in samples {
        let w = CardStats { correct, incorrect }.weight();
        assert!(w.num >= 1);
        assert!(w.den >= 1);
        assert!(w.units() >= 1);
    }
}

#[test]
fn weight_formula_exact_values() {
    // weight = 1 / (max(correct - incorrect, 0) + 1) + max(incorrect - correct, 0)
    let w = CardStats { correct: 0, incorrect: 0 }.weight();
    assert_eq!((w.num, w.den), (1, 1));
    let w = CardStats { correct: 2, incorrect: 0 }.weight();
    assert_eq!((w.num, w.den), (1, 3));
    let w = CardStats { correct: 0, incorrect: 2 }.weight();
    assert_eq!((w.num, w.den), (3, 1));
    let w = CardStats { correct: 4, incorrect: 4 }.weight();
    assert_eq!((w.num, w.den), (1, 1));

    assert_eq!(CardStats { correct: 0, incorrect: 0 }.weight().units(), WEIGHT_SCALE);
    assert_eq!(CardStats { correct: 5, incorrect: 0 }.weight().units(), WEIGHT_SCALE / 6);
    assert_eq!(CardStats { correct: 0, incorrect: 3 }.weight().units(), 4 * WEIGHT_SCALE);
}

#[test]
fn correct_answer_feedback() {
    // {correct: 2, incorrect: 0}: after record_correct the stats become
    // {3, 0} and the weight strictly shrinks.
    let id = CardId(String::from("test:Front"));
    let mut stats = Stats::new();
    stats.record_correct(&id);
    stats.record_correct(&id);
    let before = stats.for_card(&id);
    assert_eq!((before.correct, before.incorrect), (2, 0));
    let weight_before = before.weight();

    let weight_after = stats.record_correct(&id);
    let after = stats.for_card(&id);
    assert_eq!((after.correct, after.incorrect), (3, 0));
    assert!(weight_after.less_than(&weight_before));
    assert!(!weight_before.less_than(&weight_after));
}

#[test]
fn incorrect_answer_feedback() {
    // {correct: 0, incorrect: 0}: after record_incorrect the stats become
    // {0, 1} and the weight grows by exactly 1.0.
    let id = CardId(String::from("test:Front"));
    let mut stats = Stats::new();
    let baseline = stats.for_card(&id);
    assert_eq!((baseline.correct, baseline.incorrect), (0, 0));
    let w0 = baseline.weight();
    assert_eq!((w0.num, w0.den), (1, 1));

    let w1 = stats.record_incorrect(&id);
    let after = stats.for_card(&id);
    assert_eq!((after.correct, after.incorrect), (0, 1));
    // w1 == w0 + 1 exactly: 2/1 == 1/1 + 1
    assert_eq!((w1.num, w1.den), (2, 1));
    assert_eq!(w1.num * w0.den, w0.num * w1.den + w0.den * w1.den);
}

#[test]
fn weight_comparison_is_rational() {
    let third = Weight { num: 1, den: 3 };
    let half = Weight { num: 1, den: 2 };
    assert!(third.less_than(&half));
    assert!(!half.less_than(&third));
    let same = Weight { num: 2, den: 6 };
    assert!(!third.less_than(&same));
    assert!(!same.less_than(&third));
}

#[test]
fn stats_lazy_entries_and_updates() {
    let alpha = CardId(String::from("deck:alpha"));
    let beta = CardId(String::from("deck:beta"));
    let mut stats = Stats::new();

    let a = stats.for_card(&alpha);
    assert_eq!((a.correct, a.incorrect), (0, 0));

    stats.record_correct(&alpha);
    stats.record_incorrect(&beta);
    stats.record_incorrect(&beta);

    let a = stats.for_card(&alpha);
    let b = stats.for_card(&beta);
    assert_eq!((a.correct, a.incorrect), (1, 0));
    assert_eq!((b.correct, b.incorrect), (0, 2));
}

fn entries_to_json(entries: &[(CardId, CardStats)]) -> String {
    let mut map = serde_json::Map::new();
    for (id, cs) in entries {
        let mut obj = serde_json::Map::new();
        obj.insert(
            String::from("correct"),
            serde_json::Value::from(cs.correct),
        );
        obj.insert(
            String::from("incorrect"),
            serde_json::Value::from(cs.incorrect),
        );
        map.insert(id.0.clone(), serde_json::Value::Object(obj));
    }
    serde_json::to_string(&serde_json::Value::Object(map)).expect("serializing stats must work")
}

fn json_to_entries(text: &str) -> Vec<(CardId, CardStats)> {
    let parsed: serde_json::Value = serde_json::from_str(text).expect("parsing stats must work");
    let map = parsed.as_object().expect("stats must be an object");
    let mut entries = Vec::new();
    for (key, value) in map {
        let obj = value.as_object().expect("entry must be an object");
        let correct = obj["correct"].as_u64().expect("correct must be a number") as u32;
        let incorrect = obj["incorrect"].as_u64().expect("incorrect must be a number") as u32;
        entries.push((CardId(key.clone()), CardStats { correct, incorrect }));
    }
    entries
}

#[test]
fn stats_round_trip() {
    // Persisting the statistics map and reloading it reproduces identical
    // counters for every card identity.
    let alpha = CardId(String::from("deck:alpha"));
    let beta = CardId(String::from("deck:beta"));
    let gamma = CardId(String::from("other:x, y"));
    let mut stats = Stats::new();
    stats.record_correct(&alpha);
    stats.record_correct(&alpha);
    stats.record_incorrect(&beta);
    stats.for_card(&gamma);

    let text = entries_to_json(&stats.to_entries());
    let mut reloaded = Stats::from_entries(json_to_entries(&text));

    for id in [&alpha, &beta, &gamma] {
        let expect = stats.for_card(id);
        let got = reloaded.for_card(id);
        assert_eq!((got.correct, got.incorrect), (expect.correct, expect.incorrect));
    }
}
