//! Stable orders and ranks.
use vstd::prelude::*;

use crate::number::Double;

verus! {

/// The sequence lists the places below `n`, each once.
pub open spec fn is_arrangement(order: Seq<usize>, n: int) -> bool {
    &&& order.len() == n
    &&& order.no_duplicates()
    &&& forall|k: int| 0 <= k < order.len() ==> (#[trigger] order[k]) < n
}

/// A strict order in which places may also be level.
pub open spec fn is_strict_order(before: spec_fn(int, int) -> bool, n: int) -> bool {
    &&& forall|i: int, j: int| 0 <= i < n && 0 <= j < n && #[trigger] before(i, j) ==> !before(j, i)
    &&& forall|i: int, j: int, k: int|
        0 <= i < n && 0 <= j < n && 0 <= k < n && #[trigger] before(i, k) && !(#[trigger] before(i, j)) ==> before(j, k)
}

/// `i` comes first: the order says so, or they are level and `i` is earlier.
pub open spec fn ahead(before: spec_fn(int, int) -> bool, i: int, j: int) -> bool {
    before(i, j) || (!before(j, i) && i < j)
}

/// The places stand in the given order, level ones as they came.
pub open spec fn is_stable_order(before: spec_fn(int, int) -> bool, order: Seq<usize>) -> bool {
    forall|a: int, b: int|
        0 <= a < b < order.len() ==> ahead(before, #[trigger] order[a] as int, #[trigger] order[b] as int)
}

/// Arranges the places below `n` by insertion.
fn insertion_order<F: Fn(usize, usize) -> bool>(
    n: usize,
    comes_before: F,
    Ghost(before): Ghost<spec_fn(int, int) -> bool>,
) -> (order: Vec<usize>)
    requires
        forall|i: usize, j: usize| i < n && j < n ==> #[trigger] call_requires(comes_before, (i, j)),
        forall|i: usize, j: usize, r: bool|
            i < n && j < n && #[trigger] call_ensures(comes_before, (i, j), r) ==> r == before(i as int, j as int),
    ensures
        is_arrangement(order@, n as int),
        is_strict_order(before, n as int) ==> is_stable_order(before, order@),
{
    let mut order: Vec<usize> = Vec::new();
    let mut i: usize = 0;
    while i < n
        invariant
            i <= n,
            forall|i: usize, j: usize| i < n && j < n ==> #[trigger] call_requires(comes_before, (i, j)),
            forall|i: usize, j: usize, r: bool|
                i < n && j < n && #[trigger] call_ensures(comes_before, (i, j), r) ==> r == before(i as int, j as int),
            is_arrangement(order@, i as int),
            is_strict_order(before, n as int) ==> is_stable_order(before, order@),
        decreases n - i,
    {
        let mut j: usize = i;
        while j > 0 && comes_before(i, order[j - 1])
            invariant
                j <= i < n,
                is_arrangement(order@, i as int),
                forall|i: usize, j: usize| i < n && j < n ==> #[trigger] call_requires(comes_before, (i, j)),
                forall|i: usize, j: usize, r: bool|
                    i < n && j < n && #[trigger] call_ensures(comes_before, (i, j), r) ==> r == before(i as int, j as int),
                forall|k: int| j <= k < i ==> before(i as int, #[trigger] order@[k] as int),
            ensures
                j > 0 ==> !before(i as int, order@[j - 1] as int),
            decreases j,
        {
            j -= 1;
        }
        let ghost held = order@;
        order.insert(j, i);
        proof {
            assert(order@ =~= held.insert(j as int, i));
            lemma_inserted(before, held, i, j as int, n as int);
        }
        i += 1;
    }
    order
}

proof fn lemma_inserted(before: spec_fn(int, int) -> bool, held: Seq<usize>, i: usize, j: int, n: int)
    requires
        0 <= j <= i < n,
        is_arrangement(held, i as int),
        is_strict_order(before, n) ==> is_stable_order(before, held),
        forall|k: int| j <= k < i ==> before(i as int, #[trigger] held[k] as int),
        j > 0 ==> !before(i as int, held[j - 1] as int),
    ensures
        is_arrangement(held.insert(j, i), i + 1),
        is_strict_order(before, n) ==> is_stable_order(before, held.insert(j, i)),
{
    let order = held.insert(j, i);
    assert forall|k: int| 0 <= k < order.len() implies (#[trigger] order[k]) < i + 1 by {
        if k < j {
            assert(order[k] == held[k]);
        } else if k > j {
            assert(order[k] == held[k - 1]);
        }
    }
    assert forall|a: int, b: int| 0 <= a < order.len() && 0 <= b < order.len() && a != b implies order[a] != order[b] by {
        let x = if a < j { a } else { a - 1 };
        let y = if b < j { b } else { b - 1 };
        if a != j {
            assert(order[a] == held[x]);
        }
        if b != j {
            assert(order[b] == held[y]);
        }
    }
    if is_strict_order(before, n) {
        assert forall|a: int, b: int| 0 <= a < b < order.len() implies ahead(
            before,
            #[trigger] order[a] as int,
            #[trigger] order[b] as int,
        ) by {
            let x = if a < j { a } else { a - 1 };
            let y = if b < j { b } else { b - 1 };
            if a == j {
                assert(order[b] == held[y]);
                assert(before(i as int, held[y] as int));
            } else if b == j {
                assert(order[a] == held[x]);
                if x < j - 1 {
                    assert(ahead(before, held[x] as int, held[j - 1] as int));
                    if before(i as int, held[x] as int) {
                        assert(before(held[j - 1] as int, held[x] as int));
                    }
                }
            } else {
                assert(order[a] == held[x] && order[b] == held[y]);
            }
        }
    }
}

// ─── Orders of keys and of numbers ───────────────────────────────────────────

/// Smaller keys come first.
pub open spec fn smaller(keys: Seq<u64>) -> spec_fn(int, int) -> bool {
    |i: int, j: int| keys[i] < keys[j]
}

/// The places of the keys in ascending order; equal keys as they came.
pub fn ascending_order(keys: &Vec<u64>) -> (order: Vec<usize>)
    ensures
        is_arrangement(order@, keys@.len() as int),
        is_stable_order(smaller(keys@), order@),
{
    let comes_before = |i: usize, j: usize| -> (r: bool)
        requires
            i < keys@.len(),
            j < keys@.len(),
        ensures
            r == (keys@[i as int] < keys@[j as int]),
        { keys[i] < keys[j] };
    insertion_order(keys.len(), comes_before, Ghost(smaller(keys@)))
}

/// Greater numbers come first; a NaN is level with everything.
pub open spec fn greater(values: Seq<Double>) -> spec_fn(int, int) -> bool {
    |i: int, j: int| values[j].below(values[i])
}

/// Being greater orders the values: they are all numbers, or all NaNs.
pub open spec fn comparable(values: Seq<Double>) -> bool {
    ||| forall|i: int| 0 <= i < values.len() ==> !(#[trigger] values[i]).is_nan()
    ||| forall|i: int| 0 <= i < values.len() ==> (#[trigger] values[i]).is_nan()
}

/// The places of the values in descending order; level ones as they came.
/// With numbers and NaNs mixed no order is promised, only an arrangement.
pub fn descending_order(values: &Vec<Double>) -> (order: Vec<usize>)
    ensures
        is_arrangement(order@, values@.len() as int),
        comparable(values@) ==> is_stable_order(greater(values@), order@),
{
    let comes_before = |i: usize, j: usize| -> (r: bool)
        requires
            i < values@.len(),
            j < values@.len(),
        ensures
            r == values@[j as int].below(values@[i as int]),
        { values[j].less_than(values[i]) };
    insertion_order(values.len(), comes_before, Ghost(greater(values@)))
}

/// The places of the arrangement are all the places.
pub proof fn lemma_arrangement_covers(order: Seq<usize>, n: int)
    requires
        is_arrangement(order, n),
    ensures
        forall|i: usize| i < n ==> #[trigger] order.contains(i),
{
    let places = order.map_values(|k: usize| k as int);
    let all = vstd::set_lib::set_int_range(0, n);
    assert(places.no_duplicates()) by {
        assert forall|a: int, b: int| 0 <= a < places.len() && 0 <= b < places.len() && a != b implies places[a] != places[b] by {
            assert(order[a] != order[b]);
        }
    }
    places.unique_seq_to_set();
    vstd::set_lib::lemma_int_range(0, n);
    assert(places.to_set().subset_of(all)) by {
        assert forall|p: int| places.to_set().contains(p) implies all.contains(p) by {
            let k = choose|k: int| 0 <= k < places.len() && places[k] == p;
            assert(order[k] < n);
        }
    }
    vstd::set_lib::lemma_subset_equality(places.to_set(), all);
    assert forall|i: usize| i < n implies #[trigger] order.contains(i) by {
        assert(all.contains(i as int));
        assert(places.contains(i as int));
        let k = choose|k: int| 0 <= k < places.len() && places[k] == i as int;
        assert(order[k] == i);
    }
}

/// The entries in the given arrangement.
pub open spec fn arranged<T>(entries: Seq<T>, order: Seq<usize>) -> Seq<T> {
    Seq::new(order.len(), |k: int| entries[order[k] as int])
}

/// Puts the entries in the given arrangement.
pub fn arrange<T>(entries: Vec<T>, order: &Vec<usize>) -> (r: Vec<T>)
    requires
        is_arrangement(order@, entries@.len() as int),
    ensures
        r@ == arranged(entries@, order@),
{
    let ghost given = entries@;
    let mut slots: Vec<Option<T>> = Vec::new();
    let mut rest = entries;
    while rest.len() > 0
        invariant
            rest@.len() + slots@.len() == given.len(),
            rest@ == given.take(rest@.len() as int),
            forall|k: int| 0 <= k < slots@.len() ==> #[trigger] slots@[k] == Some(given[given.len() - 1 - k]),
        decreases rest.len(),
    {
        let entry = rest.pop();
        slots.push(entry);
        assert(rest@ =~= given.take(rest@.len() as int));
    }
    let n = slots.len();
    let mut r: Vec<T> = Vec::new();
    let mut k: usize = 0;
    while k < n
        invariant
            n == given.len(),
            slots@.len() == n,
            is_arrangement(order@, n as int),
            k <= n,
            r@.len() == k,
            forall|a: int| 0 <= a < k ==> #[trigger] r@[a] == given[order@[a] as int],
            forall|p: int|
                0 <= p < n && (forall|a: int| 0 <= a < k ==> #[trigger] order@[a] != p) ==> #[trigger] slots@[n - 1 - p]
                    == Some(given[p]),
        decreases n - k,
    {
        let at: usize = n - 1 - order[k];
        let ghost held = slots@;
        assert(slots@[n - 1 - order@[k as int]] == Some(given[order@[k as int] as int]));
        let entry = slots[at].take();
        match entry {
            Some(e) => {
                r.push(e);
            },
            None => {},
        }
        k += 1;
    }
    assert(r@ =~= arranged(given, order@));
    r
}

/// Of the places below `n`, a strict order allows one stable arrangement.
pub proof fn stable_orders_are_unique(before: spec_fn(int, int) -> bool, a: Seq<usize>, b: Seq<usize>, n: int)
    requires
        is_strict_order(before, n),
        is_arrangement(a, n),
        is_arrangement(b, n),
        is_stable_order(before, a),
        is_stable_order(before, b),
    ensures
        a == b,
{
    lemma_same_prefix(before, a, b, n, n);
    assert(a =~= b);
}

proof fn lemma_same_prefix(before: spec_fn(int, int) -> bool, a: Seq<usize>, b: Seq<usize>, n: int, k: int)
    requires
        0 <= k <= n,
        is_strict_order(before, n),
        is_arrangement(a, n),
        is_arrangement(b, n),
        is_stable_order(before, a),
        is_stable_order(before, b),
    ensures
        forall|i: int| 0 <= i < k ==> #[trigger] a[i] == b[i],
    decreases k,
{
    if k > 0 {
        let last = k - 1;
        lemma_same_prefix(before, a, b, n, last);
        lemma_arrangement_covers(a, n);
        lemma_arrangement_covers(b, n);
        assert(a[last] < n && b[last] < n);
        assert(b.contains(a[last]) && a.contains(b[last]));
        let p = choose|p: int| 0 <= p < b.len() && b[p] == a[last];
        let q = choose|q: int| 0 <= q < a.len() && a[q] == b[last];
        if p < last {
            assert(a[p] == b[p]);
        }
        if q < last {
            assert(a[q] == b[q]);
        }
        if p > last && q > last {
            assert(ahead(before, b[last] as int, b[p] as int));
            assert(ahead(before, a[last] as int, a[q] as int));
        }
    }
}

// ─── Ranks ───────────────────────────────────────────────────────────────────

/// The ranks are the numbers 1, 2, ... in some order; the greatest value has
/// rank 1, and of equal values the earlier has the better rank.
pub open spec fn is_ranking(values: Seq<Double>, ranks: Seq<usize>) -> bool {
    &&& ranks.len() == values.len()
    &&& forall|i: int| 0 <= i < ranks.len() ==> 1 <= #[trigger] ranks[i] <= ranks.len()
    &&& ranks.no_duplicates()
    &&& comparable(values) ==> forall|i: int, j: int|
        #![trigger ranks[i], ranks[j]]
        0 <= i < ranks.len() && 0 <= j < ranks.len() && i != j ==> (ranks[i] < ranks[j] <==> ahead(
            greater(values),
            i,
            j,
        ))
}

/// The ranks of the values, from 1 for the greatest.
pub fn rank_descending(values: &Vec<Double>) -> (ranks: Vec<usize>)
    ensures
        is_ranking(values@, ranks@),
{
    let order = descending_order(values);
    let n = values.len();
    let mut ranks: Vec<usize> = Vec::new();
    let mut i: usize = 0;
    while i < n
        invariant
            i <= n,
            ranks@.len() == i,
        decreases n - i,
    {
        ranks.push(0);
        i += 1;
    }
    let mut k: usize = 0;
    while k < n
        invariant
            n == values@.len(),
            ranks@.len() == n,
            is_arrangement(order@, n as int),
            k <= n,
            forall|a: int| 0 <= a < k ==> ranks@[#[trigger] order@[a] as int] == a + 1,
        decreases n - k,
    {
        ranks[order[k]] = k + 1;
        k += 1;
    }
    proof {
        lemma_arrangement_covers(order@, n as int);
        assert forall|i: int| 0 <= i < ranks@.len() implies 1 <= #[trigger] ranks@[i] <= ranks@.len() && order@[ranks@[i]
            - 1] == i by {
            assert(order@.contains(i as usize));
            let a = choose|a: int| 0 <= a < order@.len() && order@[a] == i as usize;
            assert(ranks@[order@[a] as int] == a + 1);
        }
        assert(ranks@.no_duplicates()) by {
            assert forall|i: int, j: int| 0 <= i < ranks@.len() && 0 <= j < ranks@.len() && i != j implies ranks@[i]
                != ranks@[j] by {
                assert(order@[ranks@[i] - 1] == i && order@[ranks@[j] - 1] == j);
            }
        }
        if comparable(values@) {
            assert forall|i: int, j: int|
                #![trigger ranks@[i], ranks@[j]]
                0 <= i < ranks@.len() && 0 <= j < ranks@.len() && i != j implies (ranks@[i] < ranks@[j] <==> ahead(
                greater(values@),
                i,
                j,
            )) by {
                let (a, b) = (ranks@[i] - 1, ranks@[j] - 1);
                assert(order@[a] == i && order@[b] == j);
                if a < b {
                    assert(ahead(greater(values@), order@[a] as int, order@[b] as int));
                } else {
                    assert(ahead(greater(values@), order@[b] as int, order@[a] as int));
                }
            }
        }
    }
    ranks
}

/// A rank is one more than the number of values that come ahead: those that are
/// greater, and those that are level and earlier.
pub proof fn rank_counts_values_ahead(values: Seq<Double>, ranks: Seq<usize>, i: int)
    requires
        is_ranking(values, ranks),
        comparable(values),
        0 <= i < values.len(),
    ensures
        ranks[i] == 1 + Set::new(|j: int| 0 <= j < values.len() && ahead(greater(values), j, i)).len(),
{
    let n = ranks.len() as int;
    let better = Set::new(|j: int| 0 <= j < values.len() && ahead(greater(values), j, i));
    let f = |j: int| ranks[j] as int;
    let image = vstd::set_lib::set_int_range(1, ranks[i] as int);
    vstd::set_lib::lemma_int_range(0, n);
    vstd::set_lib::lemma_int_range(1, ranks[i] as int);
    assert(better.subset_of(vstd::set_lib::set_int_range(0, n)));
    vstd::set_lib::lemma_len_subset(better, vstd::set_lib::set_int_range(0, n));
    assert forall|j: int| 0 <= j < n implies (better.contains(j) <==> #[trigger] ranks[j] < ranks[i]) by {}
    assert(vstd::relations::injective_on(f, better)) by {
        assert forall|x: int, y: int| better.contains(x) && better.contains(y) && #[trigger] f(x) == #[trigger] f(y) implies x
            == y by {
            assert(ranks[x] == ranks[y]);
        }
    }
    assert(better.map(f) =~= image) by {
        assert forall|r: int| image.contains(r) implies better.map(f).contains(r) by {
            lemma_every_rank_is_given(values, ranks, r);
            let j = choose|j: int| 0 <= j < n && #[trigger] ranks[j] == r;
            assert(better.contains(j) && f(j) == r);
        }
        assert forall|r: int| better.map(f).contains(r) implies image.contains(r) by {
            let j = choose|j: int| better.contains(j) && f(j) == r;
            assert(ranks[j] < ranks[i]);
        }
    }
    vstd::set_lib::lemma_map_size(better, image, f);
}

/// Every number from 1 to the number of values is somebody's rank.
pub proof fn lemma_every_rank_is_given(values: Seq<Double>, ranks: Seq<usize>, r: int)
    requires
        is_ranking(values, ranks),
        1 <= r <= ranks.len(),
        r <= usize::MAX,
    ensures
        exists|j: int| 0 <= j < ranks.len() && #[trigger] ranks[j] == r,
{
    let places = ranks.map_values(|k: usize| (k - 1) as usize);
    assert(is_arrangement(places, ranks.len() as int)) by {
        assert forall|a: int, b: int| 0 <= a < places.len() && 0 <= b < places.len() && a != b implies places[a]
            != places[b] by {
            assert(ranks[a] != ranks[b]);
        }
        assert forall|k: int| 0 <= k < places.len() implies (#[trigger] places[k]) < ranks.len() by {
            assert(1 <= ranks[k] <= ranks.len());
        }
    }
    lemma_arrangement_covers(places, ranks.len() as int);
    assert(places.contains((r - 1) as usize));
    let j = choose|j: int| 0 <= j < places.len() && places[j] == (r - 1) as usize;
    assert(ranks[j] == r);
}

} // verus!
