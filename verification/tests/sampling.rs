use reservoir_one::sampler::{sample_one_iter, TakeRand};
use reservoir_one::source::{TapeSource, ThreadRngSource};

/// An element type without Clone or Copy: a returned value can only be one of
/// the input values, moved out, never a duplicate.
struct Token {
    id: usize,
}

#[test]
fn empty_input_leaves_tape_untouched() {
    let mut source = TapeSource::new(vec![3, 1, 4]);
    let items: Vec<u64> = vec![];
    assert_eq!(sample_one_iter(&mut source, items), None);
    assert_eq!(source.draws_made(), 0);
}

#[test]
fn single_element_is_always_returned() {
    let mut source = ThreadRngSource::new();
    for round in 0..100usize {
        assert_eq!(sample_one_iter(&mut source, vec![round]), Some(round));
    }
}

#[test]
fn single_element_needs_one_draw() {
    let mut source = TapeSource::new(vec![]);
    assert_eq!(sample_one_iter(&mut source, vec!["only"]), Some("only"));
    assert_eq!(source.draws_made(), 1);
    assert_eq!(source.bound_at(0), 1);
    assert_eq!(source.result_at(0), 0);
}

#[test]
fn uniformity_smoke_test() {
    let n = 5usize;
    let trials = 100_000usize;
    let mut counts = vec![0usize; n];
    let mut source = ThreadRngSource::new();
    for _ in 0..trials {
        let items: Vec<usize> = (0..n).collect();
        let picked = sample_one_iter(&mut source, items).unwrap();
        counts[picked] += 1;
    }
    let expected = trials / n;
    for (value, &count) in counts.iter().enumerate() {
        assert!(
            count >= expected * 4 / 5 && count <= expected * 6 / 5,
            "value {} selected {} times, expected about {}",
            value,
            count,
            expected
        );
    }
}

#[test]
fn draw_count_accounting() {
    let mut source = TapeSource::new(vec![0, 1, 2, 3]);
    let picked = sample_one_iter(&mut source, vec![10u64, 20, 30, 40]);
    assert!(picked.is_some());
    assert_eq!(source.draws_made(), 4);
    for i in 0..4 {
        assert_eq!(source.bound_at(i), i + 1);
    }
    assert_eq!(source.result_at(0), 0); // 0 % 1
    assert_eq!(source.result_at(1), 1); // 1 % 2
    assert_eq!(source.result_at(2), 2); // 2 % 3
    assert_eq!(source.result_at(3), 3); // 3 % 4
}

#[test]
fn tape_replays_deterministically() {
    // The selection is the element at the last position whose draw was zero.
    let mut keeps_first = TapeSource::new(vec![0, 1, 1]);
    assert_eq!(sample_one_iter(&mut keeps_first, vec![1u64, 2, 3]), Some(1));

    let mut takes_last = TapeSource::new(vec![0, 1, 0]);
    assert_eq!(sample_one_iter(&mut takes_last, vec![1u64, 2, 3]), Some(3));

    let mut takes_middle = TapeSource::new(vec![0, 0, 2]);
    assert_eq!(sample_one_iter(&mut takes_middle, vec![1u64, 2, 3]), Some(2));
}

#[test]
fn tape_values_are_reduced_modulo_the_bound() {
    // Draws: 7 % 1 = 0, 7 % 2 = 1, 4 % 3 = 1 — the first element stays.
    let mut source = TapeSource::new(vec![7, 7, 4]);
    assert_eq!(sample_one_iter(&mut source, vec![1u64, 2, 3]), Some(1));
    assert_eq!(source.result_at(0), 0);
    assert_eq!(source.result_at(1), 1);
    assert_eq!(source.result_at(2), 1);
}

#[test]
fn exhausted_tape_keeps_drawing_zero() {
    // Past its list the tape yields zero, so the last element wins.
    let mut source = TapeSource::new(vec![]);
    assert_eq!(sample_one_iter(&mut source, vec![7u64, 8, 9]), Some(9));
    assert_eq!(source.draws_made(), 3);
}

#[test]
fn filtered_pipeline_returns_only_matching_elements() {
    let meals = vec!["breakfast", "lunch", "dinner"];
    let eligible: Vec<&str> = meals.into_iter().filter(|x| x.contains('a')).collect();
    let mut source = ThreadRngSource::new();
    assert_eq!(eligible.take_rand(&mut source), Some("breakfast"));
}

#[test]
fn filtered_pipeline_with_no_match_returns_none() {
    let meals = vec!["lunch", "dinner"];
    let eligible: Vec<&str> = meals.into_iter().filter(|x| x.contains('z')).collect();
    let mut source = ThreadRngSource::new();
    assert_eq!(eligible.take_rand(&mut source), None);
}

#[test]
fn filtered_pipeline_always_satisfies_filter() {
    let mut source = ThreadRngSource::new();
    for _ in 0..1_000usize {
        let meals = vec!["breakfast", "lunch", "dinner", "banana", "soup"];
        let eligible: Vec<&str> = meals.into_iter().filter(|x| x.contains('a')).collect();
        let picked = eligible.take_rand(&mut source).unwrap();
        assert!(picked.contains('a'));
    }
}

#[test]
fn returned_element_is_moved_not_cloned() {
    let tokens = vec![Token { id: 1 }, Token { id: 2 }, Token { id: 3 }];
    let mut source = TapeSource::new(vec![0, 1, 1]);
    let picked = sample_one_iter(&mut source, tokens).unwrap();
    assert_eq!(picked.id, 1);

    let boxes = vec![Box::new(10u64), Box::new(20)];
    let mut source = TapeSource::new(vec![0, 0]);
    let picked = sample_one_iter(&mut source, boxes).unwrap();
    assert_eq!(*picked, 20);
}

#[test]
fn take_rand_matches_free_function() {
    let mut by_method = TapeSource::new(vec![0, 1, 0, 3]);
    let mut by_function = TapeSource::new(vec![0, 1, 0, 3]);
    let items = vec![4u64, 5, 6, 7];
    let picked_method = items.clone().take_rand(&mut by_method);
    let picked_function = sample_one_iter(&mut by_function, items);
    assert_eq!(picked_method, picked_function);
    assert_eq!(picked_method, Some(6));
}

#[test]
fn every_element_eventually_selected() {
    // With a fair source over three elements, each should show up soon.
    let mut source = ThreadRngSource::new();
    let mut seen = [false; 3];
    for _ in 0..1_000usize {
        let picked = sample_one_iter(&mut source, vec![0usize, 1, 2]).unwrap();
        seen[picked] = true;
        if seen.iter().all(|&s| s) {
            return;
        }
    }
    panic!("some element was never selected in 1000 fair trials");
}
