use leader_schedule::weights::WeightIndex;

#[test]
fn index_holds_the_weights() {
    let weights = vec![500u64, 300, 200];
    let index = WeightIndex::new(&weights);
    assert_eq!(index.len(), 3);
    assert_eq!(index.total(), 1000);
    assert_eq!(index.weight(0), 500);
    assert_eq!(index.weight(1), 300);
    assert_eq!(index.weight(2), 200);
}

#[test]
fn draw_selects_the_first_position_whose_cumulative_weight_exceeds_it() {
    let index = WeightIndex::new(&vec![500, 300, 200]);
    assert_eq!(index.select(0), 0);
    assert_eq!(index.select(499), 0);
    assert_eq!(index.select(500), 1);
    assert_eq!(index.select(799), 1);
    assert_eq!(index.select(800), 2);
    assert_eq!(index.select(999), 2);
}

#[test]
fn draw_never_selects_a_zero_weight() {
    let index = WeightIndex::new(&vec![0, 3, 0, 0, 2, 0]);
    assert_eq!(index.total(), 5);
    assert_eq!(index.select(0), 1);
    assert_eq!(index.select(2), 1);
    assert_eq!(index.select(3), 4);
    assert_eq!(index.select(4), 4);
}

#[test]
fn cleared_weight_is_gone() {
    let mut index = WeightIndex::new(&vec![500, 300, 200]);
    index.clear(1);
    assert_eq!(index.total(), 700);
    assert_eq!(index.weight(0), 500);
    assert_eq!(index.weight(1), 0);
    assert_eq!(index.weight(2), 200);
    assert_eq!(index.len(), 3);
    assert_eq!(index.select(499), 0);
    assert_eq!(index.select(500), 2);
    assert_eq!(index.select(699), 2);
    index.clear(0);
    assert_eq!(index.total(), 200);
    assert_eq!(index.select(0), 2);
    index.clear(2);
    assert_eq!(index.total(), 0);
}

#[test]
fn clearing_twice_changes_nothing_more() {
    let mut index = WeightIndex::new(&vec![4, 6]);
    index.clear(0);
    index.clear(0);
    assert_eq!(index.total(), 6);
    assert_eq!(index.select(5), 1);
}

#[test]
fn index_of_one_weight() {
    let mut index = WeightIndex::new(&vec![9]);
    assert_eq!(index.total(), 9);
    assert_eq!(index.select(8), 0);
    index.clear(0);
    assert_eq!(index.total(), 0);
}

#[test]
fn index_of_no_weight() {
    let index = WeightIndex::new(&Vec::new());
    assert_eq!(index.len(), 0);
    assert_eq!(index.total(), 0);
}

#[test]
fn index_agrees_with_a_linear_scan() {
    for n in 1..40usize {
        let weights: Vec<u64> = (0..n).map(|i| ((i * 31 + 7) % 11) as u64).collect();
        let mut index = WeightIndex::new(&weights);
        let mut left = weights.clone();
        for round in 0..n {
            let total: u64 = left.iter().sum();
            assert_eq!(index.total(), total as u128);
            if total == 0 {
                break;
            }
            let draw = (round as u64 * 2654435761) % total;
            let mut sum = 0;
            let mut expected = 0;
            for (i, weight) in left.iter().enumerate() {
                sum += weight;
                if sum > draw {
                    expected = i;
                    break;
                }
            }
            assert_eq!(index.select(draw as u128), expected);
            index.clear(expected);
            left[expected] = 0;
        }
    }
}

#[test]
fn total_may_pass_sixty_four_bits() {
    let mut index = WeightIndex::new(&vec![u64::MAX, u64::MAX, u64::MAX]);
    assert_eq!(index.total(), 3 * (u64::MAX as u128));
    assert_eq!(index.select(u64::MAX as u128 - 1), 0);
    assert_eq!(index.select(u64::MAX as u128), 1);
    assert_eq!(index.select(2 * (u64::MAX as u128)), 2);
    index.clear(1);
    assert_eq!(index.select(u64::MAX as u128), 2);
}
