use flashr::weighted_list::WeightedList;

fn build_list(items: &[(i32, u64)]) -> WeightedList<i32> {
    let mut list = WeightedList::with_capacity(items.len());
    for (item, weight) in items {
        list.add(*item, *weight);
    }
    list
}

#[test]
fn test_weighted_list() {
    let rng = &mut rand::rng();

    let mut empty: WeightedList<i32> = WeightedList::with_capacity(0);
    assert!(empty.remove_random(rng).is_none());

    let list = build_list(&[(1, 1)]);
    for _ in 0..10 {
        assert!(matches!(list.get_random(rng), Some((1, 0))));
    }

    const TOTAL: usize = 1000;
    let mut seen = (0usize, 0usize);
    for _ in 0..TOTAL {
        let mut list = build_list(&[(1, 1), (2, 2)]);
        let mut position = 0usize;
        while let Some(((value, _), _)) = list.remove_random(rng) {
            if value == 1 {
                seen.0 += position;
            } else {
                seen.1 += position;
            }
            position += 1;
        }
    }
    let (min, max) = if seen.0 < seen.1 { (seen.0, seen.1) } else { (seen.1, seen.0) };
    assert!(
        min as f64 / TOTAL as f64 > 0.3,
        "{min} is not around 33% of {TOTAL}"
    );
    assert!(
        max as f64 / TOTAL as f64 > 0.6,
        "{max} is not around 66% of {TOTAL}"
    );

    let mut seen = (0usize, 0usize);
    for _ in 0..TOTAL {
        let mut list = build_list(&[(1, 1), (2, 2), (3, 3)]);
        let mut position = 0usize;
        while let Some(((value, _), _)) = list.remove_random(rng) {
            if value == 3 {
                seen.0 += position;
            } else {
                seen.1 += position;
            }
            position += 1;
        }
    }
    let (min, _) = if seen.0 < seen.1 { (seen.0, seen.1) } else { (seen.1, seen.0) };
    assert!(
        min as f64 / TOTAL as f64 > 0.45,
        "{min} is not around 50% of {TOTAL}"
    );
}

#[test]
fn weighted_list_total_tracks_sum() {
    let mut list = build_list(&[(10, 5), (20, 7), (30, 1)]);
    assert_eq!(list.total_weight(), 13);
    assert_eq!(list.weights(), vec![5, 7, 1]);

    list.change_weight(1, 2);
    let weights = list.weights();
    assert_eq!(weights, vec![5, 2, 1]);
    assert_eq!(list.total_weight(), weights.iter().sum::<u64>());

    list.change_weight(0, 0);
    let weights = list.weights();
    assert_eq!(weights, vec![0, 2, 1]);
    assert_eq!(list.total_weight(), weights.iter().sum::<u64>());
}

#[test]
fn weighted_list_empty_and_singleton_draws() {
    let rng = &mut rand::rng();

    let empty: WeightedList<u8> = WeightedList::with_capacity(4);
    assert!(empty.get_random(rng).is_none());
    assert!(empty.random_index(rng).is_none());

    let single = build_list(&[(9, 0)]);
    for _ in 0..10 {
        assert_eq!(single.random_index(rng), Some(0));
        assert!(matches!(single.get_random(rng), Some((9, 0))));
    }
}

#[test]
fn weighted_list_zero_weight_never_drawn() {
    let rng = &mut rand::rng();
    let list = build_list(&[(1, 0), (2, 5), (3, 0)]);
    for _ in 0..200 {
        let (value, index) = list.get_random(rng).expect("nonempty list must draw");
        assert_eq!(value, 2);
        assert_eq!(index, 1);
    }
}

#[test]
fn weighted_list_remove_random_returns_element() {
    let rng = &mut rand::rng();
    let mut list = build_list(&[(1, 1), (2, 2), (3, 3)]);
    let mut removed = Vec::new();
    while let Some(((value, weight), _)) = list.remove_random(rng) {
        removed.push((value, weight));
    }
    removed.sort();
    assert_eq!(removed, vec![(1, 1), (2, 2), (3, 3)]);
    assert_eq!(list.total_weight(), 0);
    assert_eq!(list.len(), 0);
}
