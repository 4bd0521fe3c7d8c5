use leader_schedule::identity::Identity;
use leader_schedule::order::{comes_first, sort_stakes};

fn id(n: u8) -> Identity {
    Identity::new([n; 32])
}

#[test]
fn more_stake_comes_first() {
    assert!(comes_first(&(id(1), 10), &(id(9), 9)));
    assert!(!comes_first(&(id(9), 9), &(id(1), 10)));
}

#[test]
fn greater_identity_comes_first_among_equal_stakes() {
    assert!(comes_first(&(id(9), 10), &(id(1), 10)));
    assert!(!comes_first(&(id(1), 10), &(id(9), 10)));
}

#[test]
fn no_entry_comes_before_itself() {
    assert!(!comes_first(&(id(4), 10), &(id(4), 10)));
}

#[test]
fn stakes_are_sorted_by_stake_then_identity() {
    let mut stakes = vec![
        (id(1), 300),
        (id(2), 500),
        (id(3), 300),
        (id(4), 100),
        (id(5), 500),
        (id(6), 0),
    ];
    sort_stakes(&mut stakes);
    assert_eq!(
        stakes,
        vec![(id(5), 500), (id(2), 500), (id(3), 300), (id(1), 300), (id(4), 100), (id(6), 0)]
    );
}

#[test]
fn sorting_keeps_one_of_each_entry() {
    let mut stakes = vec![(id(1), 7), (id(2), 7), (id(1), 7), (id(1), 8), (id(2), 7)];
    sort_stakes(&mut stakes);
    assert_eq!(stakes, vec![(id(1), 8), (id(2), 7), (id(1), 7)]);
}

#[test]
fn sorting_does_not_depend_on_the_order_given() {
    let sorted = vec![(id(7), 9), (id(3), 9), (id(8), 4), (id(1), 1), (id(0), 1)];
    let mut turned = sorted.clone();
    turned.reverse();
    sort_stakes(&mut turned);
    assert_eq!(turned, sorted);
    let mut mixed = vec![sorted[2], sorted[4], sorted[0], sorted[3], sorted[1]];
    sort_stakes(&mut mixed);
    assert_eq!(mixed, sorted);
    let mut same = sorted.clone();
    sort_stakes(&mut same);
    assert_eq!(same, sorted);
}

#[test]
fn sorting_nothing_or_one_entry_changes_nothing() {
    let mut none: Vec<(Identity, u64)> = Vec::new();
    sort_stakes(&mut none);
    assert!(none.is_empty());
    let mut one = vec![(id(3), 12)];
    sort_stakes(&mut one);
    assert_eq!(one, vec![(id(3), 12)]);
}

#[test]
fn sorting_many_entries() {
    let mut stakes: Vec<(Identity, u64)> = Vec::new();
    for n in 0..200u64 {
        stakes.push((id((n * 37 % 251) as u8), n * 7919 % 23));
    }
    sort_stakes(&mut stakes);
    assert_eq!(stakes.len(), 200);
    for pair in stakes.windows(2) {
        assert!(comes_first(&pair[0], &pair[1]));
    }
}
