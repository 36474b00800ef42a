use flashr::random::{shuffle_vec, vec_random_index, vec_remove_random};

#[test]
fn test_get_random() {
    let rng = &mut rand::rng();

    let mut vals: Vec<i32> = vec![];
    assert!(vec_random_index(&vals, rng).is_none());

    vals.push(1);
    for _ in 0..10 {
        let i = vec_random_index(&vals, rng).expect("Unable to get random");
        assert!(matches!(vals[i], 1));
    }

    vals.push(2);
    let mut seen = (0usize, 0usize);
    const TOTAL: usize = 1000;
    for _ in 0..TOTAL {
        let i = vec_random_index(&vals, rng).expect("Unable to get random");
        if vals[i] == 1 {
            seen.0 += 1;
        } else {
            seen.1 += 1;
        }
    }
    let min = seen.0.min(seen.1);
    assert!(
        min as f64 / TOTAL as f64 > 0.45,
        "{min} is not around half of {TOTAL}"
    );
}

#[test]
fn test_iter_shuffled() {
    let rng = &mut rand::rng();

    let vals: Vec<i32> = vec![];
    assert!(shuffle_vec(vals.clone(), rng).is_empty());

    let vals = vec![1];
    for _ in 0..10 {
        let shuffled = shuffle_vec(vals.clone(), rng);
        assert!(matches!(shuffled[0], 1));
        assert_eq!(shuffled.len(), 1);
    }

    let vals = vec![1, 2];
    let mut seen = (0usize, 0usize);
    const TOTAL: usize = 1000;
    for _ in 0..TOTAL {
        let shuffled = shuffle_vec(vals.clone(), rng);
        for (i, v) in shuffled.iter().enumerate() {
            if *v == 1 {
                seen.0 += i;
            } else {
                seen.1 += i;
            }
        }
    }
    let min = seen.0.min(seen.1);
    assert!(
        min as f64 / TOTAL as f64 > 0.45,
        "{min} is not around half of {TOTAL}"
    );
}

#[test]
fn shuffle_keeps_elements() {
    let rng = &mut rand::rng();
    let vals = vec![3, 1, 4, 1, 5, 9, 2, 6];
    let mut shuffled = shuffle_vec(vals.clone(), rng);
    shuffled.sort();
    let mut sorted = vals.clone();
    sorted.sort();
    assert_eq!(shuffled, sorted);
}

#[test]
fn remove_random_drains_all() {
    let rng = &mut rand::rng();
    let mut vals = vec![10, 20, 30];
    let mut out = Vec::new();
    while let Some(v) = vec_remove_random(&mut vals, rng) {
        out.push(v);
    }
    out.sort();
    assert_eq!(out, vec![10, 20, 30]);
    assert!(vals.is_empty());
}
