//! The order of the file table: ascending by hash, entries of equal hash in
//! the order in which the archive holds them.
use vstd::prelude::*;

verus! {

/// Whether index `a` comes before index `b` in the table.
pub open spec fn precedes(keys: Seq<u32>, a: int, b: int) -> bool {
    keys[a] < keys[b] || (keys[a] == keys[b] && a < b)
}

/// `order` names every index of `keys` once, so that each comes before all
/// that follow it.
pub open spec fn is_table_order(order: Seq<int>, keys: Seq<u32>) -> bool {
    &&& order.len() == keys.len()
    &&& forall|i: int| 0 <= i < order.len() ==> 0 <= #[trigger] order[i] < keys.len()
    &&& forall|i: int, j: int|
        0 <= i < j < order.len() ==> precedes(keys, #[trigger] order[i], #[trigger] order[j])
}

/// Where an entry with hash `key` goes into `order` so as to stand behind
/// every entry whose hash is not greater.
pub open spec fn insertion_point(order: Seq<int>, keys: Seq<u32>, key: u32) -> int
    decreases order.len(),
{
    if order.len() == 0 || keys[order.last()] <= key {
        order.len() as int
    } else {
        insertion_point(order.drop_last(), keys, key)
    }
}

/// The table order of `keys`, built by placing the indices one after another.
pub open spec fn table_order(keys: Seq<u32>) -> Seq<int>
    decreases keys.len(),
{
    if keys.len() == 0 {
        Seq::empty()
    } else {
        let rest = table_order(keys.drop_last());
        rest.insert(insertion_point(rest, keys, keys.last()), keys.len() - 1)
    }
}

/// The insertion point lies within the order or at its end.
pub proof fn lemma_insertion_point_in_range(order: Seq<int>, keys: Seq<u32>, key: u32)
    ensures
        0 <= insertion_point(order, keys, key) <= order.len(),
    decreases order.len(),
{
    if !(order.len() == 0 || keys[order.last()] <= key) {
        lemma_insertion_point_in_range(order.drop_last(), keys, key);
    }
}

/// In an order by ascending hash, the insertion point parts the hashes not
/// greater than `key` from the greater ones.
proof fn lemma_insertion_point(order: Seq<int>, keys: Seq<u32>, key: u32)
    requires
        forall|i: int| 0 <= i < order.len() ==> 0 <= #[trigger] order[i] < keys.len(),
        forall|i: int, j: int|
            0 <= i < j < order.len() ==> keys[#[trigger] order[i]] <= keys[#[trigger] order[j]],
    ensures
        0 <= insertion_point(order, keys, key) <= order.len(),
        forall|i: int|
            0 <= i < insertion_point(order, keys, key) ==> keys[#[trigger] order[i]] <= key,
        forall|i: int|
            insertion_point(order, keys, key) <= i < order.len() ==> keys[#[trigger] order[i]]
                > key,
    decreases order.len(),
{
    if order.len() == 0 || keys[order.last()] <= key {
    } else {
        let shorter = order.drop_last();
        lemma_insertion_point(shorter, keys, key);
        assert forall|i: int| 0 <= i < insertion_point(order, keys, key) implies keys[#[trigger] order[i]]
            <= key by {
            assert(order[i] == shorter[i]);
        }
        assert forall|i: int|
            insertion_point(order, keys, key) <= i < order.len() implies keys[#[trigger] order[i]]
            > key by {
            if i < shorter.len() {
                assert(order[i] == shorter[i]);
            }
        }
    }
}

/// The order that `table_order` builds is a table order.
pub proof fn lemma_table_order(keys: Seq<u32>)
    ensures
        is_table_order(table_order(keys), keys),
    decreases keys.len(),
{
    if keys.len() == 0 {
    } else {
        let shorter = keys.drop_last();
        let rest = table_order(shorter);
        let last = keys.len() - 1;
        lemma_table_order(shorter);
        assert forall|i: int| 0 <= i < rest.len() implies 0 <= #[trigger] rest[i] < keys.len()
            && keys[rest[i]] == shorter[rest[i]] by {}
        assert forall|i: int, j: int| 0 <= i < j < rest.len() implies keys[#[trigger] rest[i]]
            <= keys[#[trigger] rest[j]] by {
            assert(precedes(shorter, rest[i], rest[j]));
        }
        lemma_insertion_point(rest, keys, keys.last());
        let at = insertion_point(rest, keys, keys.last());
        let order = rest.insert(at, last);
        assert forall|i: int, j: int| 0 <= i < j < order.len() implies precedes(
            keys,
            #[trigger] order[i],
            #[trigger] order[j],
        ) by {
            if j < at {
                assert(precedes(shorter, rest[i], rest[j]));
            } else if j == at {
                assert(keys[rest[i]] <= keys[last]);
            } else if i < at {
                assert(precedes(shorter, rest[i], rest[j - 1]));
            } else if i == at {
                assert(keys[rest[j - 1]] > keys[last]);
            } else {
                assert(precedes(shorter, rest[i - 1], rest[j - 1]));
            }
        }
    }
}

/// A table order names every index.
proof fn lemma_table_order_holds_all(order: Seq<int>, keys: Seq<u32>, index: int)
    requires
        is_table_order(order, keys),
        0 <= index < keys.len(),
    ensures
        order.contains(index),
{
    let all = vstd::set_lib::set_int_range(0, keys.len() as int);
    assert(order.no_duplicates()) by {
        assert forall|i: int, j: int| 0 <= i < order.len() && 0 <= j < order.len() && i != j implies order[i]
            != order[j] by {
            if i < j {
                assert(precedes(keys, order[i], order[j]));
            } else {
                assert(precedes(keys, order[j], order[i]));
            }
        }
    }
    order.unique_seq_to_set();
    vstd::set_lib::lemma_int_range(0, keys.len() as int);
    assert(order.to_set().subset_of(all)) by {
        assert forall|x: int| order.to_set().contains(x) implies all.contains(x) by {
            let i = choose|i: int| 0 <= i < order.len() && order[i] == x;
            assert(0 <= order[i] < keys.len());
        }
    }
    assert(order.to_set().finite()) by {
        vstd::seq_lib::seq_to_set_is_finite(order);
    }
    vstd::set_lib::lemma_subset_equality(order.to_set(), all);
    assert(all.contains(index));
    assert(order.to_set().contains(index));
}

/// Two table orders agree on their first `upto` places.
proof fn lemma_table_orders_agree(one: Seq<int>, other: Seq<int>, keys: Seq<u32>, upto: int)
    requires
        is_table_order(one, keys),
        is_table_order(other, keys),
        0 <= upto <= keys.len(),
    ensures
        forall|i: int| 0 <= i < upto ==> one[i] == other[i],
    decreases upto,
{
    if upto > 0 {
        let at = upto - 1;
        lemma_table_orders_agree(one, other, keys, at);
        lemma_table_order_holds_all(other, keys, one[at]);
        lemma_table_order_holds_all(one, keys, other[at]);
        let p = choose|p: int| 0 <= p < other.len() && other[p] == one[at];
        let q = choose|q: int| 0 <= q < one.len() && one[q] == other[at];
        if p < at {
            assert(one[p] == other[p]);
            assert(precedes(keys, one[p], one[at]));
        } else if p > at {
            assert(precedes(keys, other[at], other[p]));
            if q < at {
                assert(one[q] == other[q]);
                assert(precedes(keys, other[q], other[at]));
            } else if q > at {
                assert(precedes(keys, one[at], one[q]));
            }
        }
    }
}

/// There is one table order only.
pub proof fn lemma_table_order_is_unique(one: Seq<int>, other: Seq<int>, keys: Seq<u32>)
    requires
        is_table_order(one, keys),
        is_table_order(other, keys),
    ensures
        one == other,
{
    lemma_table_orders_agree(one, other, keys, keys.len() as int);
    assert(one =~= other);
}

/// `run` names the indices from `lo` up to `hi`, each before all that
/// follow it.
pub open spec fn is_run(run: Seq<usize>, keys: Seq<u32>, lo: int, hi: int) -> bool {
    &&& run.len() == hi - lo
    &&& forall|i: int| 0 <= i < run.len() ==> lo <= #[trigger] run[i] < hi
    &&& forall|i: int, j: int|
        0 <= i < j < run.len() ==> precedes(keys, #[trigger] run[i] as int, #[trigger] run[j] as int)
}

/// Merges the run of the indices below `mid` with the run of those from
/// `mid` on.
#[verifier::rlimit(40)]
fn merge(
    keys: &Vec<u32>,
    left: &Vec<usize>,
    right: &Vec<usize>,
    lo: usize,
    mid: usize,
    hi: usize,
) -> (merged: Vec<usize>)
    requires
        lo <= mid <= hi <= keys@.len(),
        is_run(left@, keys@, lo as int, mid as int),
        is_run(right@, keys@, mid as int, hi as int),
    ensures
        is_run(merged@, keys@, lo as int, hi as int),
{
    let mut merged: Vec<usize> = Vec::new();
    let mut i: usize = 0;
    let mut j: usize = 0;
    while i < left.len() || j < right.len()
        invariant
            i <= left@.len(),
            j <= right@.len(),
            lo <= mid <= hi <= keys@.len(),
            is_run(left@, keys@, lo as int, mid as int),
            is_run(right@, keys@, mid as int, hi as int),
            merged@.len() == i + j,
            forall|m: int| 0 <= m < merged@.len() ==> lo <= #[trigger] merged@[m] < hi,
            forall|m: int, n: int|
                0 <= m < n < merged@.len() ==> precedes(
                    keys@,
                    #[trigger] merged@[m] as int,
                    #[trigger] merged@[n] as int,
                ),
            forall|m: int, p: int|
                0 <= m < merged@.len() && i <= p < left@.len() ==> precedes(
                    keys@,
                    #[trigger] merged@[m] as int,
                    #[trigger] left@[p] as int,
                ),
            forall|m: int, q: int|
                0 <= m < merged@.len() && j <= q < right@.len() ==> precedes(
                    keys@,
                    #[trigger] merged@[m] as int,
                    #[trigger] right@[q] as int,
                ),
        decreases left@.len() - i + right@.len() - j,
    {
        let ghost before = merged@;
        let from_left: bool = if j >= right.len() {
            true
        } else if i >= left.len() {
            false
        } else {
            keys[left[i]] <= keys[right[j]]
        };
        if from_left {
            let index: usize = left[i];
            merged.push(index);
            proof {
                assert forall|m: int, q: int|
                    0 <= m < merged@.len() && j <= q < right@.len() implies precedes(
                    keys@,
                    #[trigger] merged@[m] as int,
                    #[trigger] right@[q] as int,
                ) by {
                    if m == before.len() {
                        assert(index < mid <= right@[q]);
                        assert(keys@[index as int] <= keys@[right@[j as int] as int]);
                        if q > j {
                            assert(precedes(keys@, right@[j as int] as int, right@[q] as int));
                        }
                    } else {
                        assert(merged@[m] == before[m]);
                    }
                }
                assert forall|m: int, p: int|
                    0 <= m < merged@.len() && i + 1 <= p < left@.len() implies precedes(
                    keys@,
                    #[trigger] merged@[m] as int,
                    #[trigger] left@[p] as int,
                ) by {
                    if m == before.len() {
                        assert(precedes(keys@, left@[i as int] as int, left@[p] as int));
                    } else {
                        assert(merged@[m] == before[m]);
                    }
                }
                assert forall|m: int, n: int| 0 <= m < n < merged@.len() implies precedes(
                    keys@,
                    #[trigger] merged@[m] as int,
                    #[trigger] merged@[n] as int,
                ) by {
                    assert(merged@[m] == before[m]);
                    if n == before.len() {
                        assert(precedes(keys@, before[m] as int, left@[i as int] as int));
                    } else {
                        assert(merged@[n] == before[n]);
                    }
                }
            }
            i = i + 1;
        } else {
            let index: usize = right[j];
            merged.push(index);
            proof {
                assert forall|m: int, p: int|
                    0 <= m < merged@.len() && i <= p < left@.len() implies precedes(
                    keys@,
                    #[trigger] merged@[m] as int,
                    #[trigger] left@[p] as int,
                ) by {
                    if m == before.len() {
                        assert(keys@[left@[i as int] as int] > keys@[index as int]);
                        if p > i {
                            assert(precedes(keys@, left@[i as int] as int, left@[p] as int));
                        }
                    } else {
                        assert(merged@[m] == before[m]);
                    }
                }
                assert forall|m: int, q: int|
                    0 <= m < merged@.len() && j + 1 <= q < right@.len() implies precedes(
                    keys@,
                    #[trigger] merged@[m] as int,
                    #[trigger] right@[q] as int,
                ) by {
                    if m == before.len() {
                        assert(precedes(keys@, right@[j as int] as int, right@[q] as int));
                    } else {
                        assert(merged@[m] == before[m]);
                    }
                }
                assert forall|m: int, n: int| 0 <= m < n < merged@.len() implies precedes(
                    keys@,
                    #[trigger] merged@[m] as int,
                    #[trigger] merged@[n] as int,
                ) by {
                    assert(merged@[m] == before[m]);
                    if n == before.len() {
                        assert(precedes(keys@, before[m] as int, right@[j as int] as int));
                    } else {
                        assert(merged@[n] == before[n]);
                    }
                }
            }
            j = j + 1;
        }
    }
    merged
}

/// Sorts the indices from `lo` up to `hi` into a run.
fn sort_range(keys: &Vec<u32>, lo: usize, hi: usize) -> (run: Vec<usize>)
    requires
        lo <= hi <= keys@.len(),
    ensures
        is_run(run@, keys@, lo as int, hi as int),
    decreases hi - lo,
{
    if hi - lo <= 1 {
        let mut run: Vec<usize> = Vec::new();
        if lo < hi {
            run.push(lo);
        }
        run
    } else {
        let mid: usize = lo + (hi - lo) / 2;
        let left = sort_range(keys, lo, mid);
        let right = sort_range(keys, mid, hi);
        merge(keys, &left, &right, lo, mid, hi)
    }
}

/// Sorts the indices of `keys` into table order.
pub fn sort_by_hash(keys: &Vec<u32>) -> (order: Vec<usize>)
    ensures
        order@.map_values(|i: usize| i as int) == table_order(keys@),
        is_table_order(order@.map_values(|i: usize| i as int), keys@),
{
    let order = sort_range(keys, 0, keys.len());
    proof {
        let found = order@.map_values(|i: usize| i as int);
        assert(is_table_order(found, keys@)) by {
            assert forall|i: int, j: int| 0 <= i < j < found.len() implies precedes(
                keys@,
                #[trigger] found[i],
                #[trigger] found[j],
            ) by {
                assert(precedes(keys@, order@[i] as int, order@[j] as int));
            }
        }
        lemma_table_order(keys@);
        lemma_table_order_is_unique(found, table_order(keys@), keys@);
    }
    order
}

} // verus!
