use vstd::prelude::*;

verus! {

/// Byte `i` of `value`, the least significant byte being byte 0.
pub open spec fn le_byte(value: u64, i: int) -> u8 {
    ((value >> ((8 * i) as u64)) & 0xff) as u8
}

/// The seed of an epoch: the epoch number in its first eight bytes, least
/// significant byte first, and zero in the other twenty-four.
pub open spec fn seed_of(epoch: u64) -> Seq<u8> {
    Seq::new(
        32,
        |i: int|
            if i < 8 {
                le_byte(epoch, i)
            } else {
                0u8
            },
    )
}

/// Derives the schedule seed of `epoch`.
pub fn schedule_seed(epoch: u64) -> (seed: [u8; 32])
    ensures
        seed@ == seed_of(epoch),
{
    let mut seed = [0u8; 32];
    let mut i: usize = 0;
    while i < 8
        invariant
            i <= 8,
            forall|j: int| 0 <= j < i ==> seed@[j] == le_byte(epoch, j),
            forall|j: int| i <= j < 32 ==> seed@[j] == 0,
        decreases 8 - i,
    {
        let shift: u64 = 8 * (i as u64);
        let low: u64 = (epoch >> shift) & 0xff;
        assert(low <= 0xff) by (bit_vector)
            requires
                low == (epoch >> shift) & 0xff,
        ;
        seed[i] = low as u8;
        i += 1;
    }
    seed
}

/// Different epochs have different seeds.
pub proof fn lemma_seed_tells_epoch(first: u64, second: u64)
    requires
        seed_of(first) == seed_of(second),
    ensures
        first == second,
{
    let a = seed_of(first);
    let b = seed_of(second);
    assert(a[0] == b[0] && a[1] == b[1] && a[2] == b[2] && a[3] == b[3]);
    assert(a[4] == b[4] && a[5] == b[5] && a[6] == b[6] && a[7] == b[7]);
    assert(first == second) by (bit_vector)
        requires
            ((first >> 0u64) & 0xff) as u8 == ((second >> 0u64) & 0xff) as u8,
            ((first >> 8u64) & 0xff) as u8 == ((second >> 8u64) & 0xff) as u8,
            ((first >> 16u64) & 0xff) as u8 == ((second >> 16u64) & 0xff) as u8,
            ((first >> 24u64) & 0xff) as u8 == ((second >> 24u64) & 0xff) as u8,
            ((first >> 32u64) & 0xff) as u8 == ((second >> 32u64) & 0xff) as u8,
            ((first >> 40u64) & 0xff) as u8 == ((second >> 40u64) & 0xff) as u8,
            ((first >> 48u64) & 0xff) as u8 == ((second >> 48u64) & 0xff) as u8,
            ((first >> 56u64) & 0xff) as u8 == ((second >> 56u64) & 0xff) as u8,
    ;
}

} // verus!
