use leader_schedule::identity::Identity;

fn with_byte(position: usize, value: u8) -> Identity {
    let mut bytes = [0u8; 32];
    bytes[position] = value;
    Identity::new(bytes)
}

#[test]
fn identity_keeps_its_bytes() {
    let mut bytes = [0u8; 32];
    for (i, byte) in bytes.iter_mut().enumerate() {
        *byte = (i * 7) as u8;
    }
    let identity = Identity::new(bytes);
    assert_eq!(identity.to_bytes(), bytes);
    assert_eq!(identity.bytes, bytes);
}

#[test]
fn identities_are_equal_when_all_bytes_are() {
    assert_eq!(Identity::new([5; 32]), Identity::new([5; 32]));
    assert_ne!(with_byte(31, 1), Identity::new([0; 32]));
    assert_ne!(with_byte(0, 1), with_byte(31, 1));
}

#[test]
fn first_byte_weighs_most() {
    let low = with_byte(31, 255);
    let high = with_byte(0, 1);
    assert!(low.precedes(&high));
    assert!(!high.precedes(&low));
}

#[test]
fn order_is_decided_at_the_first_difference() {
    let mut a = [9u8; 32];
    let mut b = [9u8; 32];
    a[10] = 3;
    b[10] = 4;
    a[11] = 200;
    b[11] = 0;
    assert!(Identity::new(a).precedes(&Identity::new(b)));
    assert!(!Identity::new(b).precedes(&Identity::new(a)));
}

#[test]
fn no_identity_precedes_itself() {
    let identity = Identity::new([17; 32]);
    assert!(!identity.precedes(&identity));
    assert!(!Identity::new([0; 32]).precedes(&Identity::new([0; 32])));
    assert!(!Identity::new([255; 32]).precedes(&Identity::new([255; 32])));
}

#[test]
fn of_two_identities_one_precedes() {
    let all = [Identity::new([0; 32]), with_byte(31, 1), with_byte(15, 1), Identity::new([255; 32])];
    for (i, a) in all.iter().enumerate() {
        for (j, b) in all.iter().enumerate() {
            assert_eq!(a.precedes(b), i < j);
        }
    }
}
