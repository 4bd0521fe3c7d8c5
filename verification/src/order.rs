use vstd::prelude::*;
use crate::identity::Identity;
use crate::stake::{
    distinct_validators, lemma_table_holds_entry, lemma_table_size, lists, position_of, table_of,
};

verus! {

/// Entry `a` stands before entry `b` in the canonical order: it has more
/// stake, or the same stake and the greater identity.
pub open spec fn outranks(a: (Identity, u64), b: (Identity, u64)) -> bool {
    a.1 > b.1 || (a.1 == b.1 && b.0.before(&a.0))
}

/// The entries stand in the canonical order, and no entry stands twice:
/// each entry outranks all that follow it.
pub open spec fn strictly_descending(entries: Seq<(Identity, u64)>) -> bool {
    forall|i: int, j: int|
        0 <= i < j < entries.len() ==> outranks(#[trigger] entries[i], #[trigger] entries[j])
}

/// `entries` is a canonical sequence for `table`: it holds the table's
/// validators, each once and with its stake, in the canonical order.
pub open spec fn is_canonical(entries: Seq<(Identity, u64)>, table: Map<Identity, nat>) -> bool {
    &&& strictly_descending(entries)
    &&& distinct_validators(entries)
    &&& table_of(entries) == table
}

/// The canonical sequence of a stake table: its entries by descending stake
/// and, where stakes are equal, by descending identity.
pub open spec fn canonical_order(table: Map<Identity, nat>) -> Seq<(Identity, u64)> {
    choose|entries: Seq<(Identity, u64)>| is_canonical(entries, table)
}

/// Tells whether entry `a` stands before entry `b` in the canonical order.
pub fn comes_first(a: &(Identity, u64), b: &(Identity, u64)) -> (first: bool)
    ensures
        first == outranks(*a, *b),
{
    if a.1 == b.1 {
        b.0.precedes(&a.0)
    } else {
        a.1 > b.1
    }
}

/// Of two entries, neither of which outranks the other, there is but one.
pub proof fn lemma_outranks_total(a: (Identity, u64), b: (Identity, u64))
    ensures
        a == b || outranks(a, b) || outranks(b, a),
        !(outranks(a, b) && outranks(b, a)),
{
    Identity::lemma_before_total(a.0, b.0);
}

/// The canonical order is transitive.
pub proof fn lemma_outranks_transitive(a: (Identity, u64), b: (Identity, u64), c: (Identity, u64))
    requires
        outranks(a, b),
        outranks(b, c),
    ensures
        outranks(a, c),
{
    if a.1 == b.1 && b.1 == c.1 {
        Identity::lemma_before_transitive(c.0, b.0, a.0);
    }
}

/// An entry that the last of a canonical run outranks extends the run.
proof fn lemma_push_keeps_descending(entries: Seq<(Identity, u64)>, entry: (Identity, u64))
    requires
        strictly_descending(entries),
        entries.len() > 0 ==> outranks(entries.last(), entry),
    ensures
        strictly_descending(entries.push(entry)),
{
    let longer = entries.push(entry);
    assert forall|i: int, j: int| 0 <= i < j < longer.len() implies outranks(
        #[trigger] longer[i],
        #[trigger] longer[j],
    ) by {
        if j == entries.len() && i < entries.len() - 1 {
            lemma_outranks_transitive(entries[i], entries.last(), entry);
        }
    }
}

/// Merges two canonical runs into one, keeping one of each entry that
/// stands in both.
fn merge(left: &Vec<(Identity, u64)>, right: &Vec<(Identity, u64)>) -> (merged: Vec<(Identity, u64)>)
    requires
        strictly_descending(left@),
        strictly_descending(right@),
    ensures
        strictly_descending(merged@),
        forall|e: (Identity, u64)|
            merged@.contains(e) <==> (left@.contains(e) || right@.contains(e)),
{
    let mut merged: Vec<(Identity, u64)> = Vec::new();
    let mut i: usize = 0;
    let mut j: usize = 0;
    while i < left.len() || j < right.len()
        invariant
            i <= left@.len(),
            j <= right@.len(),
            strictly_descending(left@),
            strictly_descending(right@),
            strictly_descending(merged@),
            merged@.len() > 0 && i < left@.len() ==> outranks(merged@.last(), left@[i as int]),
            merged@.len() > 0 && j < right@.len() ==> outranks(merged@.last(), right@[j as int]),
            forall|m: int|
                0 <= m < merged@.len() ==> left@.contains(#[trigger] merged@[m]) || right@.contains(
                    merged@[m],
                ),
            forall|p: int| 0 <= p < i ==> merged@.contains(#[trigger] left@[p]),
            forall|q: int| 0 <= q < j ==> merged@.contains(#[trigger] right@[q]),
        decreases left@.len() - i + right@.len() - j,
    {
        let ghost earlier = merged@;
        let take_left: bool;
        let take_right: bool;
        if j == right.len() {
            take_left = true;
            take_right = false;
        } else if i == left.len() {
            take_left = false;
            take_right = true;
        } else if comes_first(&left[i], &right[j]) {
            take_left = true;
            take_right = false;
        } else if comes_first(&right[j], &left[i]) {
            take_left = false;
            take_right = true;
        } else {
            proof {
                lemma_outranks_total(left@[i as int], right@[j as int]);
            }
            take_left = true;
            take_right = true;
        }
        let entry = if take_left {
            left[i]
        } else {
            right[j]
        };
        proof {
            lemma_push_keeps_descending(earlier, entry);
        }
        merged.push(entry);
        if take_left {
            i += 1;
        }
        if take_right {
            j += 1;
        }
        proof {
            assert(merged@.last() == entry);
            assert forall|p: int| 0 <= p < i implies merged@.contains(#[trigger] left@[p]) by {
                if earlier.contains(left@[p]) {
                    let m = choose|m: int| 0 <= m < earlier.len() && earlier[m] == left@[p];
                    assert(merged@[m] == left@[p]);
                }
            }
            assert forall|q: int| 0 <= q < j implies merged@.contains(#[trigger] right@[q]) by {
                if earlier.contains(right@[q]) {
                    let m = choose|m: int| 0 <= m < earlier.len() && earlier[m] == right@[q];
                    assert(merged@[m] == right@[q]);
                }
            }
        }
    }
    merged
}

/// The entries `from..to` of `entries` in the canonical order, each once.
fn sorted_range(entries: &Vec<(Identity, u64)>, from: usize, to: usize) -> (sorted: Vec<
    (Identity, u64),
>)
    requires
        from <= to <= entries@.len(),
    ensures
        strictly_descending(sorted@),
        forall|e: (Identity, u64)|
            sorted@.contains(e) <==> entries@.subrange(from as int, to as int).contains(e),
    decreases to - from,
{
    let ghost range = entries@.subrange(from as int, to as int);
    if to - from == 0 {
        Vec::new()
    } else if to - from == 1 {
        let mut sorted: Vec<(Identity, u64)> = Vec::new();
        sorted.push(entries[from]);
        proof {
            assert(sorted@[0] == range[0]);
        }
        sorted
    } else {
        let middle = from + (to - from) / 2;
        let left = sorted_range(entries, from, middle);
        let right = sorted_range(entries, middle, to);
        let sorted = merge(&left, &right);
        proof {
            let low = entries@.subrange(from as int, middle as int);
            let high = entries@.subrange(middle as int, to as int);
            assert forall|e: (Identity, u64)| range.contains(e) <==> (low.contains(e)
                || high.contains(e)) by {
                if range.contains(e) {
                    let p = choose|p: int| 0 <= p < range.len() && range[p] == e;
                    if p >= middle - from {
                        assert(high[p - (middle - from)] == e);
                    }
                }
                if high.contains(e) {
                    let p = choose|p: int| 0 <= p < high.len() && high[p] == e;
                    assert(range[p + (middle - from)] == e);
                }
            }
        }
        sorted
    }
}

/// Puts `stakes` in the canonical order, by descending stake and, where
/// stakes are equal, by descending identity, and keeps one of each entry
/// that stands in it more than once.
pub fn sort_stakes(stakes: &mut Vec<(Identity, u64)>)
    ensures
        strictly_descending(final(stakes)@),
        final(stakes)@.to_set() == old(stakes)@.to_set(),
{
    let sorted = sorted_range(stakes, 0, stakes.len());
    proof {
        assert(stakes@.subrange(0, stakes@.len() as int) == stakes@);
    }
    *stakes = sorted;
}

/// Two canonical runs that hold the same entries are the same sequence.
pub proof fn lemma_descending_unique(a: Seq<(Identity, u64)>, b: Seq<(Identity, u64)>)
    requires
        strictly_descending(a),
        strictly_descending(b),
        a.to_set() == b.to_set(),
    ensures
        a == b,
    decreases a.len(),
{
    if a.len() == 0 {
        if b.len() > 0 {
            assert(b.to_set().contains(b[0]));
        }
    } else {
        assert(a.to_set().contains(a[0]));
        assert(b.to_set().contains(b[0]));
        let rest_a = a.drop_first();
        let rest_b = b.drop_first();
        assert forall|e: (Identity, u64)| rest_a.contains(e) <==> rest_b.contains(e) by {
            if rest_a.contains(e) {
                assert(a.to_set().contains(e));
                let q = choose|q: int| 0 <= q < b.len() && b[q] == e;
                assert(rest_b[q - 1] == e);
            }
            if rest_b.contains(e) {
                assert(b.to_set().contains(e));
                let q = choose|q: int| 0 <= q < a.len() && a[q] == e;
                assert(rest_a[q - 1] == e);
            }
        }
        assert(rest_a.to_set() =~= rest_b.to_set());
        lemma_descending_unique(rest_a, rest_b);
        assert(a =~= seq![a[0]] + rest_a);
    }
}

/// Entries that name each validator once, put in the canonical order, are
/// the canonical sequence of their table.
pub proof fn lemma_sorted_is_canonical(entries: Seq<(Identity, u64)>, sorted: Seq<(Identity, u64)>)
    requires
        distinct_validators(entries),
        strictly_descending(sorted),
        sorted.to_set() == entries.to_set(),
    ensures
        is_canonical(sorted, table_of(entries)),
        sorted == canonical_order(table_of(entries)),
        sorted.len() == entries.len(),
{
    assert forall|i: int, j: int| 0 <= i < j < sorted.len() implies (#[trigger] sorted[i]).0 != (
    #[trigger] sorted[j]).0 by {
        assert(sorted.to_set().contains(sorted[i]));
        assert(sorted.to_set().contains(sorted[j]));
    }
    assert forall|v: Identity| lists(sorted, v) <==> lists(entries, v) by {
        if lists(sorted, v) {
            let k = position_of(sorted, v);
            assert(sorted.to_set().contains(sorted[k]));
        }
        if lists(entries, v) {
            let k = position_of(entries, v);
            assert(entries.to_set().contains(entries[k]));
        }
    }
    assert forall|v: Identity| lists(sorted, v) implies #[trigger] table_of(sorted)[v] == table_of(
        entries,
    )[v] by {
        let k = position_of(sorted, v);
        assert(sorted.to_set().contains(sorted[k]));
    }
    assert(table_of(sorted) =~= table_of(entries));
    lemma_canonical_unique(sorted, canonical_order(table_of(entries)), table_of(entries));
    lemma_table_size(sorted);
    lemma_table_size(entries);
}

/// A stake table has at most one canonical sequence.
pub proof fn lemma_canonical_unique(
    a: Seq<(Identity, u64)>,
    b: Seq<(Identity, u64)>,
    table: Map<Identity, nat>,
)
    requires
        is_canonical(a, table),
        is_canonical(b, table),
    ensures
        a == b,
{
    assert forall|e: (Identity, u64)| a.contains(e) <==> b.contains(e) by {
        if a.contains(e) {
            lemma_entry_of_table(a, b, e);
        }
        if b.contains(e) {
            lemma_entry_of_table(b, a, e);
        }
    }
    assert(a.to_set() =~= b.to_set());
    lemma_descending_unique(a, b);
}

/// An entry of one sequence stands in every sequence that has the same
/// table and names each validator once.
proof fn lemma_entry_of_table(a: Seq<(Identity, u64)>, b: Seq<(Identity, u64)>, e: (Identity, u64))
    requires
        distinct_validators(a),
        distinct_validators(b),
        table_of(a) == table_of(b),
        a.contains(e),
    ensures
        b.contains(e),
{
    let p = choose|p: int| 0 <= p < a.len() && a[p] == e;
    lemma_table_holds_entry(a, p);
    assert(b[position_of(b, e.0)] == e);
}

} // verus!
