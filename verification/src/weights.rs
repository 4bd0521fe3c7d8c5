use vstd::prelude::*;

verus! {

/// The sum of a sequence of weights.
pub open spec fn weight_sum(weights: Seq<u64>) -> nat
    decreases weights.len(),
{
    if weights.len() == 0 {
        0
    } else {
        weight_sum(weights.drop_last()) + weights.last() as nat
    }
}

/// The cumulative weight of the entries before position `i`.
pub open spec fn weight_before(weights: Seq<u64>, i: int) -> nat {
    weight_sum(weights.take(i))
}

/// A draw of `draw` selects position `i`: the first position whose
/// cumulative weight, its own weight included, exceeds the draw.
pub open spec fn selects(weights: Seq<u64>, draw: nat, i: int) -> bool {
    &&& 0 <= i < weights.len()
    &&& weight_before(weights, i) <= draw < weight_before(weights, i + 1)
}

/// The position that a draw of `draw` selects.
pub open spec fn pick(weights: Seq<u64>, draw: nat) -> int {
    choose|i: int| selects(weights, draw, i)
}

/// Cumulative weights grow with the position.
pub proof fn lemma_weight_before_monotonic(weights: Seq<u64>, i: int, j: int)
    requires
        0 <= i <= j <= weights.len(),
    ensures
        weight_before(weights, i) <= weight_before(weights, j),
    decreases j - i,
{
    if i < j {
        lemma_weight_before_monotonic(weights, i, j - 1);
        assert(weights.take(j).drop_last() == weights.take(j - 1));
    }
}

/// The cumulative weight up to and with a position is the one before it
/// and the position's own weight.
pub proof fn lemma_weight_before_next(weights: Seq<u64>, i: int)
    requires
        0 <= i < weights.len(),
    ensures
        weight_before(weights, i + 1) == weight_before(weights, i) + weights[i],
        weight_before(weights, weights.len() as int) == weight_sum(weights),
{
    assert(weights.take(i + 1).drop_last() == weights.take(i));
    assert(weights.take(weights.len() as int) == weights);
}

/// A draw selects at most one position, and the weight there is positive.
pub proof fn lemma_selects_unique(weights: Seq<u64>, draw: nat, i: int, j: int)
    requires
        selects(weights, draw, i),
        selects(weights, draw, j),
    ensures
        i == j,
        weights[i] > 0,
        pick(weights, draw) == i,
{
    if i < j {
        lemma_weight_before_monotonic(weights, i + 1, j);
    } else if j < i {
        lemma_weight_before_monotonic(weights, j + 1, i);
    }
    lemma_weight_before_next(weights, i);
    let p = pick(weights, draw);
    if p < i {
        lemma_weight_before_monotonic(weights, p + 1, i);
    } else if i < p {
        lemma_weight_before_monotonic(weights, i + 1, p);
    }
}

/// `n` is a power of two.
pub open spec fn is_power_of_two(n: int) -> bool
    decreases n,
{
    n == 1 || (n > 1 && n % 2 == 0 && is_power_of_two(n / 2))
}

/// The number of leaves below node `k` of a tree with `capacity` leaves,
/// whose root is node 1 and in which node `k` has the children `2k` and `2k + 1`.
pub open spec fn span_of(capacity: int, k: int) -> int
    decreases k,
{
    if k <= 1 {
        capacity
    } else {
        span_of(capacity, k / 2) / 2
    }
}

/// The first leaf below node `k`.
pub open spec fn start_of(capacity: int, k: int) -> int
    decreases k,
{
    if k <= 1 {
        0
    } else {
        start_of(capacity, k / 2) + (k % 2) * span_of(capacity, k)
    }
}

/// The sum of the leaves `low..high` of a tree stored in `nodes`, where leaf
/// `i` stands at `capacity + i`.
pub open spec fn leaf_sum(nodes: Seq<u128>, capacity: int, low: int, high: int) -> nat
    decreases high - low,
{
    if high <= low {
        0
    } else {
        leaf_sum(nodes, capacity, low, high - 1) + nodes[capacity + high - 1] as nat
    }
}

/// Node `k` holds the sum of its two children.
pub open spec fn sum_holds(nodes: Seq<u128>, k: int) -> bool {
    nodes[k] == nodes[2 * k] + nodes[2 * k + 1]
}

/// From node `from` on, each inner node holds the sum of its two children.
pub open spec fn sums_hold_from(nodes: Seq<u128>, capacity: int, from: int) -> bool {
    forall|k: int| from <= k < capacity && 1 <= k ==> #[trigger] sum_holds(nodes, k)
}

/// The leaves below a node form a range inside the tree; an inner node spans
/// an even number of leaves, and a leaf spans itself.
pub proof fn lemma_node_range(capacity: int, k: int)
    requires
        is_power_of_two(capacity),
        1 <= k < 2 * capacity,
    ensures
        is_power_of_two(span_of(capacity, k)),
        k * span_of(capacity, k) == capacity + start_of(capacity, k),
        0 <= start_of(capacity, k),
        start_of(capacity, k) + span_of(capacity, k) <= capacity,
        k < capacity ==> span_of(capacity, k) >= 2,
        k >= capacity ==> span_of(capacity, k) == 1 && start_of(capacity, k) == k - capacity,
    decreases k,
{
    let span = span_of(capacity, k);
    let start = start_of(capacity, k);
    if k == 1 {
        assert(k * span == capacity) by (nonlinear_arith)
            requires
                k == 1,
                span == capacity,
        ;
    } else {
        let parent = k / 2;
        lemma_node_range(capacity, parent);
        let parent_span = span_of(capacity, parent);
        let parent_start = start_of(capacity, parent);
        let bit = k % 2;
        assert(k * span == capacity + start) by (nonlinear_arith)
            requires
                parent * parent_span == capacity + parent_start,
                parent_span == 2 * span,
                k == 2 * parent + bit,
                start == parent_start + bit * span,
        ;
        assert(bit * span <= span) by (nonlinear_arith)
            requires
                0 <= bit <= 1,
                span >= 0,
        ;
    }
    if k < capacity {
        if span == 1 {
            assert(k * span == k) by (nonlinear_arith)
                requires
                    span == 1,
            ;
        }
    } else {
        if span >= 2 {
            assert(k * span >= 2 * k) by (nonlinear_arith)
                requires
                    span >= 2,
                    k >= 0,
            ;
        }
        assert(k * span == k) by (nonlinear_arith)
            requires
                span == 1,
        ;
    }
}

/// The left child of an inner node spans the first half of its leaves, the
/// right child the second half.
pub proof fn lemma_child_ranges(capacity: int, k: int)
    requires
        is_power_of_two(capacity),
        1 <= k < capacity,
    ensures
        span_of(capacity, 2 * k) * 2 == span_of(capacity, k),
        span_of(capacity, 2 * k + 1) * 2 == span_of(capacity, k),
        start_of(capacity, 2 * k) == start_of(capacity, k),
        start_of(capacity, 2 * k + 1) == start_of(capacity, k) + span_of(capacity, 2 * k),
{
    lemma_node_range(capacity, k);
    let span = span_of(capacity, k);
    let half = span / 2;
    assert(1 * half == half) by (nonlinear_arith);
}

/// A range of leaves sums to its two parts.
pub proof fn lemma_leaf_sum_split(nodes: Seq<u128>, capacity: int, low: int, middle: int, high: int)
    requires
        low <= middle <= high,
    ensures
        leaf_sum(nodes, capacity, low, high) == leaf_sum(nodes, capacity, low, middle) + leaf_sum(
            nodes,
            capacity,
            middle,
            high,
        ),
    decreases high - middle,
{
    if middle < high {
        lemma_leaf_sum_split(nodes, capacity, low, middle, high - 1);
    }
}

/// Where the sums hold from node `k` on, node `k` holds the sum of the
/// leaves below it.
pub proof fn lemma_node_holds_range(nodes: Seq<u128>, capacity: int, k: int)
    requires
        is_power_of_two(capacity),
        nodes.len() == 2 * capacity,
        1 <= k < 2 * capacity,
        sums_hold_from(nodes, capacity, k),
    ensures
        nodes[k] == leaf_sum(
            nodes,
            capacity,
            start_of(capacity, k),
            start_of(capacity, k) + span_of(capacity, k),
        ),
    decreases 2 * capacity - k,
{
    lemma_node_range(capacity, k);
    let start = start_of(capacity, k);
    if k >= capacity {
        assert(leaf_sum(nodes, capacity, start, start) == 0);
    } else {
        assert(sum_holds(nodes, k));
        lemma_child_ranges(capacity, k);
        lemma_node_holds_range(nodes, capacity, 2 * k);
        lemma_node_holds_range(nodes, capacity, 2 * k + 1);
        let half = span_of(capacity, 2 * k);
        lemma_leaf_sum_split(nodes, capacity, start, start + half, start + 2 * half);
    }
}

/// Leaves that each fit in 64 bits sum to at most that many times the
/// largest such value.
pub proof fn lemma_leaf_sum_bound(nodes: Seq<u128>, capacity: int, low: int, high: int)
    requires
        0 <= low <= high <= capacity,
        nodes.len() == 2 * capacity,
        forall|i: int| capacity <= i < 2 * capacity ==> #[trigger] nodes[i] <= u64::MAX,
    ensures
        leaf_sum(nodes, capacity, low, high) <= (high - low) * u64::MAX,
    decreases high - low,
{
    if low < high {
        lemma_leaf_sum_bound(nodes, capacity, low, high - 1);
    }
}

/// A cumulative-weight index over a sequence of weights: it answers which
/// position a draw selects, and takes a weight out, each in time
/// logarithmic in the number of weights.
///
/// The weights are the leaves of a complete binary tree in which each inner
/// node holds the sum of the leaves below it.
pub struct WeightIndex {
    nodes: Vec<u128>,
    capacity: usize,
    len: usize,
}

impl View for WeightIndex {
    type V = Seq<u64>;

    closed spec fn view(&self) -> Seq<u64> {
        Seq::new(self.len as nat, |i: int| self.nodes@[self.capacity + i] as u64)
    }
}

/// The leaves up to `i` sum to the cumulative weight before `i`, where the
/// leaves past the weights are zero.
proof fn lemma_leaves_are_weights(nodes: Seq<u128>, capacity: int, weights: Seq<u64>, i: int)
    requires
        nodes.len() == 2 * capacity,
        weights.len() <= capacity,
        0 <= i <= capacity,
        forall|j: int| 0 <= j < weights.len() ==> #[trigger] weights[j] == nodes[capacity + j],
        forall|j: int| capacity + weights.len() <= j < 2 * capacity ==> #[trigger] nodes[j] == 0,
    ensures
        i <= weights.len() ==> leaf_sum(nodes, capacity, 0, i) == weight_before(weights, i),
        i >= weights.len() ==> leaf_sum(nodes, capacity, 0, i) == weight_sum(weights),
    decreases i,
{
    if i > 0 {
        lemma_leaves_are_weights(nodes, capacity, weights, i - 1);
        if i <= weights.len() {
            lemma_weight_before_next(weights, i - 1);
        }
    }
}

impl WeightIndex {
    /// The tree is sound: its capacity is a power of two, its leaves hold the
    /// weights, and each inner node holds the sum of its children.
    pub closed spec fn wf(&self) -> bool {
        &&& is_power_of_two(self.capacity as int)
        &&& self.len <= self.capacity
        &&& 2 * self.capacity <= usize::MAX
        &&& self.nodes@.len() == 2 * self.capacity
        &&& forall|i: int|
            self.capacity <= i < 2 * self.capacity ==> #[trigger] self.nodes@[i] <= u64::MAX
        &&& forall|i: int|
            self.capacity + self.len <= i < 2 * self.capacity ==> #[trigger] self.nodes@[i] == 0
        &&& sums_hold_from(self.nodes@, self.capacity as int, 1)
    }

    /// The index over `weights`.
    ///
    /// The tree has a leaf for each weight, filled up to the next power of
    /// two, and as many inner nodes: fewer than four nodes for each weight,
    /// which have to be countable.
    pub fn new(weights: &Vec<u64>) -> (index: WeightIndex)
        requires
            weights.len() <= usize::MAX / 4,
        ensures
            index.wf(),
            index@ == weights@,
    {
        let len = weights.len();
        let mut capacity: usize = 1;
        while capacity < len
            invariant
                is_power_of_two(capacity as int),
                capacity == 1 || capacity < 2 * len,
                len <= usize::MAX / 4,
            decreases 2 * len - capacity,
        {
            capacity = capacity * 2;
        }
        let mut nodes: Vec<u128> = Vec::new();
        while nodes.len() < capacity
            invariant
                nodes@.len() <= capacity,
            decreases capacity - nodes@.len(),
        {
            nodes.push(0);
        }
        let mut i: usize = 0;
        while i < capacity
            invariant
                i <= capacity,
                len == weights@.len(),
                len <= capacity,
                2 * capacity <= usize::MAX,
                nodes@.len() == capacity + i,
                forall|j: int| 0 <= j < i && j < len ==> #[trigger] nodes@[capacity + j] == weights@[j],
                forall|j: int| capacity + len <= j < capacity + i ==> #[trigger] nodes@[j] == 0,
            decreases capacity - i,
        {
            let weight: u128 = if i < len {
                weights[i] as u128
            } else {
                0
            };
            nodes.push(weight);
            i += 1;
        }
        let mut k: usize = capacity;
        while k > 1
            invariant
                1 <= k <= capacity,
                is_power_of_two(capacity as int),
                len == weights@.len(),
                len <= capacity,
                2 * capacity <= usize::MAX,
                nodes@.len() == 2 * capacity,
                forall|j: int| 0 <= j < len ==> #[trigger] nodes@[capacity + j] == weights@[j],
                forall|j: int| capacity + len <= j < 2 * capacity ==> #[trigger] nodes@[j] == 0,
                sums_hold_from(nodes@, capacity as int, k as int),
            decreases k,
        {
            k -= 1;
            let ghost earlier = nodes@;
            proof {
                assert forall|j: int| capacity <= j < 2 * capacity implies #[trigger] nodes@[j]
                    <= u64::MAX by {
                    if j < capacity + len {
                        assert(nodes@[capacity + (j - capacity)] == weights@[j - capacity]);
                    }
                }
                lemma_node_range(capacity as int, 2 * k);
                lemma_node_range(capacity as int, 2 * k + 1);
                lemma_node_holds_range(nodes@, capacity as int, 2 * k);
                lemma_node_holds_range(nodes@, capacity as int, 2 * k + 1);
                lemma_leaf_sum_bound(
                    nodes@,
                    capacity as int,
                    start_of(capacity as int, 2 * k),
                    start_of(capacity as int, 2 * k) + span_of(capacity as int, 2 * k),
                );
                lemma_leaf_sum_bound(
                    nodes@,
                    capacity as int,
                    start_of(capacity as int, 2 * k + 1),
                    start_of(capacity as int, 2 * k + 1) + span_of(capacity as int, 2 * k + 1),
                );
            }
            let sum = nodes[2 * k] + nodes[2 * k + 1];
            nodes[k] = sum;
            proof {
                assert forall|j: int| k <= j < capacity && 1 <= j implies #[trigger] sum_holds(
                    nodes@,
                    j,
                ) by {
                    if j > k {
                        assert(sum_holds(earlier, j));
                    }
                }
            }
        }
        let index = WeightIndex { nodes, capacity, len };
        proof {
            assert forall|j: int| capacity <= j < 2 * capacity implies #[trigger] index.nodes@[j]
                <= u64::MAX by {
                if j < capacity + len {
                    assert(index.nodes@[capacity + (j - capacity)] == weights@[j - capacity]);
                }
            }
        }
        index
    }

    /// What the tree's nodes say of its weights.
    proof fn lemma_root_is_total(&self)
        requires
            self.wf(),
        ensures
            self.nodes@[1] == weight_sum(self@),
            forall|i: int|
                0 <= i <= self.len ==> leaf_sum(self.nodes@, self.capacity as int, 0, i)
                    == #[trigger] weight_before(self@, i),
    {
        let capacity = self.capacity as int;
        lemma_node_holds_range(self.nodes@, capacity, 1);
        lemma_leaves_are_weights(self.nodes@, capacity, self@, capacity);
        assert forall|i: int| 0 <= i <= self.len implies leaf_sum(self.nodes@, capacity, 0, i)
            == #[trigger] weight_before(self@, i) by {
            lemma_leaves_are_weights(self.nodes@, capacity, self@, i);
        }
    }

    /// The number of weights.
    pub fn len(&self) -> (n: usize)
        requires
            self.wf(),
        ensures
            n == self@.len(),
    {
        self.len
    }

    /// The sum of the weights.
    pub fn total(&self) -> (total: u128)
        requires
            self.wf(),
        ensures
            total == weight_sum(self@),
    {
        proof {
            self.lemma_root_is_total();
        }
        self.nodes[1]
    }

    /// The weight at position `i`.
    pub fn weight(&self, i: usize) -> (weight: u64)
        requires
            self.wf(),
            i < self@.len(),
        ensures
            weight == self@[i as int],
    {
        self.nodes[self.capacity + i] as u64
    }

    /// The position that `draw` selects: the first whose cumulative weight
    /// exceeds the draw.
    pub fn select(&self, draw: u128) -> (i: usize)
        requires
            self.wf(),
            draw < weight_sum(self@),
        ensures
            selects(self@, draw as nat, i as int),
            i as int == pick(self@, draw as nat),
    {
        let ghost capacity = self.capacity as int;
        let mut k: usize = 1;
        let mut rest: u128 = draw;
        proof {
            self.lemma_root_is_total();
        }
        while k < self.capacity
            invariant
                self.wf(),
                capacity == self.capacity,
                1 <= k < 2 * self.capacity,
                leaf_sum(self.nodes@, capacity, 0, start_of(capacity, k as int)) + rest == draw,
                rest < self.nodes@[k as int],
            decreases 2 * self.capacity - k,
        {
            proof {
                assert(sum_holds(self.nodes@, k as int));
                lemma_child_ranges(capacity, k as int);
                lemma_node_range(capacity, k as int);
                lemma_node_holds_range(self.nodes@, capacity, 2 * k);
                lemma_leaf_sum_split(
                    self.nodes@,
                    capacity,
                    0,
                    start_of(capacity, k as int),
                    start_of(capacity, 2 * k + 1),
                );
            }
            let left = self.nodes[2 * k];
            if rest < left {
                k = 2 * k;
            } else {
                rest = rest - left;
                k = 2 * k + 1;
            }
        }
        proof {
            lemma_node_range(capacity, k as int);
            let i = k - capacity;
            lemma_selects_unique(self@, draw as nat, i, i);
        }
        k - self.capacity
    }

    /// Takes the weight at position `i` out: it becomes zero, and the other
    /// weights stay.
    pub fn clear(&mut self, i: usize)
        requires
            old(self).wf(),
            i < old(self)@.len(),
        ensures
            final(self).wf(),
            final(self)@ == old(self)@.update(i as int, 0),
    {
        let ghost before = self.nodes@;
        let ghost capacity = self.capacity as int;
        let mut child: usize = self.capacity + i;
        self.nodes[child] = 0;
        proof {
            assert forall|k: int| 1 <= k < capacity && k != child / 2 implies #[trigger] sum_holds(
                self.nodes@,
                k,
            ) by {
                assert(sum_holds(before, k));
            }
        }
        while child > 1
            invariant
                1 <= child < 2 * capacity,
                capacity == self.capacity == old(self).capacity,
                2 * capacity <= usize::MAX,
                self.len == old(self).len,
                i < self.len <= capacity,
                is_power_of_two(capacity),
                self.nodes@.len() == 2 * capacity == before.len(),
                sums_hold_from(before, capacity, 1),
                forall|k: int| 1 <= k < 2 * capacity ==> #[trigger] self.nodes@[k] <= before[k],
                forall|k: int|
                    capacity <= k < 2 * capacity && k != capacity + i ==> #[trigger] self.nodes@[k]
                        == before[k],
                self.nodes@[capacity + i] == 0,
                forall|k: int|
                    1 <= k < capacity && k != child / 2 ==> #[trigger] sum_holds(self.nodes@, k),
            decreases child,
        {
            let parent = child / 2;
            let ghost earlier = self.nodes@;
            proof {
                assert(sum_holds(before, parent as int));
            }
            let sum = self.nodes[2 * parent] + self.nodes[2 * parent + 1];
            self.nodes[parent] = sum;
            proof {
                assert forall|k: int| 1 <= k < capacity && k != parent / 2 implies #[trigger] sum_holds(
                    self.nodes@,
                    k,
                ) by {
                    if k != parent {
                        assert(sum_holds(earlier, k));
                    }
                }
            }
            child = parent;
        }
    }
}

} // verus!
