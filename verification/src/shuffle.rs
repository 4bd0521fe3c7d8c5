use vstd::prelude::*;
use crate::draw::{chacha_uniform, uniform_below};
use crate::weights::{lemma_selects_unique, pick, weight_sum, WeightIndex};

verus! {

/// The number of positive weights.
pub open spec fn positive_count(weights: Seq<u64>) -> nat
    decreases weights.len(),
{
    if weights.len() == 0 {
        0
    } else {
        positive_count(weights.drop_last()) + if weights.last() > 0 {
            1nat
        } else {
            0nat
        }
    }
}

/// The positions of the zero weights, in ascending order.
pub open spec fn zero_positions(weights: Seq<u64>) -> Seq<int>
    decreases weights.len(),
{
    if weights.len() == 0 {
        Seq::empty()
    } else {
        let before = zero_positions(weights.drop_last());
        if weights.last() == 0 {
            before.push(weights.len() - 1)
        } else {
            before
        }
    }
}

/// The positions drawn in `rounds` rounds, the first of them round number
/// `round`: each round draws a uniform value below the weight that is left,
/// takes the position that the draw selects, and leaves that position no
/// weight for the rounds that follow.
pub open spec fn drawn_order(weights: Seq<u64>, seed: Seq<u8>, round: nat, rounds: nat) -> Seq<int>
    decreases rounds,
{
    if rounds == 0 {
        Seq::empty()
    } else {
        let draw = chacha_uniform(seed, round as u64, weight_sum(weights) as u128);
        let position = pick(weights, draw as nat);
        seq![position] + drawn_order(
            weights.update(position, 0),
            seed,
            round + 1,
            (rounds - 1) as nat,
        )
    }
}

/// The weighted shuffle of the positions of `weights` under `seed`: the
/// positions of positive weight in the order in which they are drawn, each
/// round in proportion to the weight left, and after them the positions of
/// zero weight in ascending order.
pub open spec fn shuffled(weights: Seq<u64>, seed: Seq<u8>) -> Seq<int> {
    drawn_order(weights, seed, 0, positive_count(weights)) + zero_positions(weights)
}

/// A sequence of positions as mathematical integers.
pub open spec fn positions(order: Seq<usize>) -> Seq<int> {
    Seq::new(order.len(), |j: int| order[j] as int)
}

/// `order` holds each of the positions `0..n` exactly once.
pub open spec fn is_permutation(order: Seq<int>, n: nat) -> bool {
    &&& order.len() == n
    &&& forall|j: int| 0 <= j < order.len() ==> 0 <= #[trigger] order[j] < n
    &&& forall|j: int, k: int| 0 <= j < k < order.len() ==> order[j] != order[k]
    &&& forall|i: int| 0 <= i < n ==> order.contains(i)
}

/// Taking a positive weight out leaves one positive weight fewer.
pub proof fn lemma_positive_count_after_clear(weights: Seq<u64>, i: int)
    requires
        0 <= i < weights.len(),
        weights[i] > 0,
    ensures
        positive_count(weights.update(i, 0)) + 1 == positive_count(weights),
    decreases weights.len(),
{
    let cleared = weights.update(i, 0);
    if i == weights.len() - 1 {
        assert(cleared.drop_last() == weights.drop_last());
    } else {
        lemma_positive_count_after_clear(weights.drop_last(), i);
        assert(cleared.drop_last() == weights.drop_last().update(i, 0));
    }
}

/// The weights sum to zero exactly when none of them is positive.
pub proof fn lemma_no_weight_left(weights: Seq<u64>)
    ensures
        weight_sum(weights) == 0 <==> positive_count(weights) == 0,
        weight_sum(weights) == 0 ==> forall|i: int| 0 <= i < weights.len() ==> weights[i] == 0,
    decreases weights.len(),
{
    if weights.len() > 0 {
        let shorter = weights.drop_last();
        lemma_no_weight_left(shorter);
        if weight_sum(weights) == 0 {
            assert forall|i: int| 0 <= i < weights.len() implies weights[i] == 0 by {
                if i < weights.len() - 1 {
                    assert(shorter[i] == weights[i]);
                }
            }
        }
    }
}

/// Each position has positive or zero weight, and the positions of zero
/// weight are those listed by `zero_positions`, in ascending order.
pub proof fn lemma_zero_positions(weights: Seq<u64>)
    ensures
        positive_count(weights) + zero_positions(weights).len() == weights.len(),
        forall|j: int|
            0 <= j < zero_positions(weights).len() ==> {
                &&& 0 <= #[trigger] zero_positions(weights)[j] < weights.len()
                &&& weights[zero_positions(weights)[j]] == 0
            },
        forall|j: int, k: int|
            0 <= j < k < zero_positions(weights).len() ==> zero_positions(weights)[j]
                < zero_positions(weights)[k],
        forall|i: int|
            0 <= i < weights.len() && weights[i] == 0 ==> zero_positions(weights).contains(i),
    decreases weights.len(),
{
    if weights.len() > 0 {
        let shorter = weights.drop_last();
        lemma_zero_positions(shorter);
        let before = zero_positions(shorter);
        let all = zero_positions(weights);
        assert forall|i: int| 0 <= i < weights.len() && weights[i] == 0 implies all.contains(i) by {
            if i < weights.len() - 1 {
                assert(shorter[i] == weights[i]);
                let j = choose|j: int| 0 <= j < before.len() && before[j] == i;
                assert(all[j] == i);
            } else {
                assert(all[all.len() - 1] == i);
            }
        }
    }
}

/// Shuffles the positions of `weights`: draws positions without replacement,
/// each draw in proportion to the weight that is left, from the generator
/// that `seed` keys; positions of zero weight follow in ascending order.
pub fn weighted_shuffle(weights: &Vec<u64>, seed: &[u8; 32]) -> (order: Vec<usize>)
    requires
        weights.len() <= usize::MAX / 4,
    ensures
        positions(order@) == shuffled(weights@, seed@),
        is_permutation(positions(order@), weights@.len()),
{
    let n = weights.len();
    let mut index = WeightIndex::new(weights);
    let mut order: Vec<usize> = Vec::new();
    let mut total = index.total();
    while total > 0
        invariant
            n == weights@.len(),
            index.wf(),
            index@.len() == n,
            total == weight_sum(index@),
            order@.len() + positive_count(index@) == positive_count(weights@),
            positions(order@) + drawn_order(
                index@,
                seed@,
                order@.len(),
                positive_count(index@),
            ) == drawn_order(weights@, seed@, 0, positive_count(weights@)),
            forall|j: int|
                0 <= j < order@.len() ==> {
                    &&& (#[trigger] order@[j]) < n
                    &&& weights@[order@[j] as int] > 0
                    &&& index@[order@[j] as int] == 0
                },
            forall|i: int|
                0 <= i < n && #[trigger] index@[i] != weights@[i] ==> positions(order@).contains(i),
            forall|j: int, k: int|
                0 <= j < k < order@.len() ==> #[trigger] order@[j] != #[trigger] order@[k],
        decreases positive_count(index@),
    {
        let ghost left = index@;
        let ghost earlier = order@;
        let round = order.len() as u64;
        let draw = uniform_below(seed, round, total);
        let i = index.select(draw);
        proof {
            lemma_selects_unique(left, draw as nat, i as int, i as int);
            lemma_positive_count_after_clear(left, i as int);
        }
        index.clear(i);
        order.push(i);
        total = index.total();
        proof {
            assert forall|p: int| 0 <= p < n && #[trigger] index@[p] != weights@[p] implies positions(
                order@,
            ).contains(p) by {
                if p == i {
                    assert(positions(order@)[earlier.len() as int] == p);
                } else {
                    let j = choose|j: int|
                        0 <= j < positions(earlier).len() && positions(earlier)[j] == p;
                    assert(positions(order@)[j] == p);
                }
            }
        }
    }
    let ghost drawn = order@;
    proof {
        lemma_no_weight_left(index@);
        lemma_zero_positions(weights@);
    }
    let mut i: usize = 0;
    while i < n
        invariant
            i <= n,
            n == weights@.len(),
            positions(order@) == positions(drawn) + zero_positions(weights@.take(i as int)),
        decreases n - i,
    {
        let ghost earlier = order@;
        proof {
            assert(weights@.take(i + 1).drop_last() == weights@.take(i as int));
        }
        if weights[i] == 0 {
            order.push(i);
            proof {
                assert(positions(order@) =~= positions(earlier).push(i as int));
            }
        }
        i += 1;
    }
    proof {
        assert(weights@.take(n as int) == weights@);
        let zeros = zero_positions(weights@);
        let all = positions(order@);
        assert forall|p: int| 0 <= p < n implies all.contains(p) by {
            if weights@[p] == 0 {
                let j = choose|j: int| 0 <= j < zeros.len() && zeros[j] == p;
                assert(all[drawn.len() + j] == p);
            } else {
                assert(index@[p] != weights@[p]);
                let j = choose|j: int|
                    0 <= j < positions(drawn).len() && positions(drawn)[j] == p;
                assert(all[j] == p);
            }
        }
    }
    order
}

} // verus!
