use leader_schedule::seed::schedule_seed;
use leader_schedule::shuffle::weighted_shuffle;

fn is_permutation(order: &[usize], n: usize) -> bool {
    let mut seen = vec![false; n];
    for &position in order {
        if position >= n || seen[position] {
            return false;
        }
        seen[position] = true;
    }
    order.len() == n
}

#[test]
fn shuffle_of_recorded_weights() {
    let weights = vec![10, 0, 20, 30, 0, 40, 5];
    assert_eq!(weighted_shuffle(&weights, &schedule_seed(0)), vec![2, 5, 0, 3, 6, 1, 4]);
    assert_eq!(weighted_shuffle(&weights, &schedule_seed(1)), vec![3, 5, 6, 2, 0, 1, 4]);
    assert_eq!(weighted_shuffle(&weights, &schedule_seed(7)), vec![0, 3, 6, 5, 2, 1, 4]);
    assert_eq!(weighted_shuffle(&weights, &schedule_seed(100)), vec![5, 3, 0, 2, 6, 1, 4]);
}

#[test]
fn shuffle_of_equal_weights_is_a_permutation() {
    let weights = vec![7u64; 6];
    assert_eq!(weighted_shuffle(&weights, &schedule_seed(0)), vec![1, 3, 4, 0, 5, 2]);
    assert_eq!(weighted_shuffle(&weights, &schedule_seed(1)), vec![4, 5, 3, 1, 2, 0]);
    for epoch in 0..50 {
        assert!(is_permutation(&weighted_shuffle(&weights, &schedule_seed(epoch)), 6));
    }
}

#[test]
fn shuffle_with_a_dominant_weight_is_a_permutation() {
    let weights = vec![9900, 25, 25, 25, 25];
    assert_eq!(weighted_shuffle(&weights, &schedule_seed(0)), vec![0, 3, 1, 2, 4]);
    assert_eq!(weighted_shuffle(&weights, &schedule_seed(7)), vec![0, 2, 4, 3, 1]);
    let mut first = 0;
    for epoch in 0..200 {
        let order = weighted_shuffle(&weights, &schedule_seed(epoch));
        assert!(is_permutation(&order, 5));
        if order[0] == 0 {
            first += 1;
        }
    }
    assert!(first > 180);
}

#[test]
fn zero_weights_come_last_in_ascending_order() {
    let weights = vec![0, 5, 0, 0, 9, 0];
    for epoch in 0..20 {
        let order = weighted_shuffle(&weights, &schedule_seed(epoch));
        assert!(is_permutation(&order, 6));
        assert_eq!(order[2..], [0, 2, 3, 5]);
    }
}

#[test]
fn shuffle_without_any_weight_keeps_the_order() {
    assert_eq!(weighted_shuffle(&vec![0, 0, 0], &schedule_seed(3)), vec![0, 1, 2]);
}

#[test]
fn shuffle_of_nothing_is_empty() {
    assert_eq!(weighted_shuffle(&Vec::new(), &schedule_seed(3)), Vec::<usize>::new());
}

#[test]
fn shuffle_of_one_weight() {
    assert_eq!(weighted_shuffle(&vec![12], &schedule_seed(3)), vec![0]);
    assert_eq!(weighted_shuffle(&vec![0], &schedule_seed(3)), vec![0]);
}

#[test]
fn same_seed_gives_the_same_shuffle() {
    let weights: Vec<u64> = (1..60).collect();
    let seed = schedule_seed(42);
    let first = weighted_shuffle(&weights, &seed);
    assert_eq!(weighted_shuffle(&weights, &seed), first);
    assert!(is_permutation(&first, 59));
}

#[test]
fn shuffle_depends_on_every_part_of_the_seed() {
    let weights: Vec<u64> = (1..60).collect();
    let plain = weighted_shuffle(&weights, &[0u8; 32]);
    let mut seed = [0u8; 32];
    seed[31] = 1;
    assert_ne!(weighted_shuffle(&weights, &seed), plain);
    assert_eq!(weighted_shuffle(&weights, &schedule_seed(0)), plain);
}

#[test]
fn heavy_weights_tend_to_come_early() {
    let weights = vec![1u64, 1000];
    let mut heavy_first = 0;
    for epoch in 0..300 {
        if weighted_shuffle(&weights, &schedule_seed(epoch))[0] == 1 {
            heavy_first += 1;
        }
    }
    assert!(heavy_first > 290);
}

#[test]
fn shuffle_takes_weights_that_pass_sixty_four_bits_together() {
    let weights = vec![u64::MAX, u64::MAX, u64::MAX, 1];
    for epoch in 0..20 {
        assert!(is_permutation(&weighted_shuffle(&weights, &schedule_seed(epoch)), 4));
    }
}
