//! Orders over score keys: magnitudes, sides, and the stable sort order.

use vstd::prelude::*;

verus! {

/// The distance of a key from zero.
pub open spec fn magnitude(k: i64) -> int {
    if k < 0 {
        -(k as int)
    } else {
        k as int
    }
}

/// Two keys lie on the same side when both are at least zero or both are
/// below zero.
pub open spec fn same_side(a: i64, b: i64) -> bool {
    (a >= 0) == (b >= 0)
}

/// `order` names each position below `n` exactly once.
pub open spec fn is_permutation(order: Seq<usize>, n: nat) -> bool {
    &&& order.len() == n
    &&& forall|i: int| 0 <= i < order.len() ==> (#[trigger] order[i]) < n
    &&& forall|i: int, j: int|
        0 <= i < j < order.len() ==> (#[trigger] order[i]) != (#[trigger] order[j])
}

/// Position `a` comes before position `b` in the stable ascending order.
pub open spec fn before_ascending(keys: Seq<i64>, a: int, b: int) -> bool {
    keys[a] < keys[b] || (keys[a] == keys[b] && a < b)
}

/// Position `a` comes before position `b` in the stable descending order.
pub open spec fn before_descending(keys: Seq<i64>, a: int, b: int) -> bool {
    keys[a] > keys[b] || (keys[a] == keys[b] && a < b)
}

/// `order` lists the positions of `keys` from the smallest key to the
/// largest, equal keys in the order of their positions.
pub open spec fn is_ascending_order(keys: Seq<i64>, order: Seq<usize>) -> bool {
    &&& is_permutation(order, keys.len())
    &&& forall|i: int, j: int|
        0 <= i < j < order.len() ==> before_ascending(
            keys,
            (#[trigger] order[i]) as int,
            (#[trigger] order[j]) as int,
        )
}

/// `order` lists the positions of `keys` from the largest key to the
/// smallest, equal keys in the order of their positions.
pub open spec fn is_descending_order(keys: Seq<i64>, order: Seq<usize>) -> bool {
    &&& is_permutation(order, keys.len())
    &&& forall|i: int, j: int|
        0 <= i < j < order.len() ==> before_descending(
            keys,
            (#[trigger] order[i]) as int,
            (#[trigger] order[j]) as int,
        )
}

/// The order of pairs of integers: by the first component, then the second.
pub open spec fn pair_le(a: (i64, usize), b: (i64, usize)) -> bool {
    a.0 < b.0 || (a.0 == b.0 && a.1 <= b.1)
}

/// Sorts pairs of integers with the standard library's `sort` on slices.
/// Trusted: the result holds the same pairs, each as often as before, in
/// non-decreasing lexicographic order.
#[verifier::external_body]
fn sort_pairs(v: &mut Vec<(i64, usize)>)
    ensures
        final(v)@.to_multiset() == old(v)@.to_multiset(),
        forall|i: int, j: int|
            0 <= i < j < final(v)@.len() ==> pair_le(
                #[trigger] final(v)@[i],
                #[trigger] final(v)@[j],
            ),
{
    v.sort();
}

/// The pairs that the sort is run on: the key, flipped for a descending
/// order, and the position.
pub open spec fn tagged(keys: Seq<i64>, descending: bool) -> Seq<(i64, usize)> {
    Seq::new(
        keys.len(),
        |i: int|
            (
                if descending {
                    (-1 - keys[i]) as i64
                } else {
                    keys[i]
                },
                i as usize,
            ),
    )
}

proof fn lemma_sorted_tagged(
    keys: Seq<i64>,
    descending: bool,
    sorted: Seq<(i64, usize)>,
)
    requires
        keys.len() <= usize::MAX,
        sorted.to_multiset() == tagged(keys, descending).to_multiset(),
    ensures
        sorted.len() == keys.len(),
        sorted.no_duplicates(),
        forall|j: int|
            0 <= j < sorted.len() ==> (#[trigger] sorted[j]).1 < keys.len() && sorted[j]
                == tagged(keys, descending)[sorted[j].1 as int],
{
    let input = tagged(keys, descending);
    vstd::seq_lib::to_multiset_len(sorted);
    vstd::seq_lib::to_multiset_len(input);
    assert(input.no_duplicates());
    input.lemma_multiset_has_no_duplicates();
    sorted.lemma_multiset_has_no_duplicates_conv();
    assert forall|j: int| 0 <= j < sorted.len() implies (#[trigger] sorted[j]).1 < keys.len()
        && sorted[j] == input[sorted[j].1 as int] by {
        let x = sorted[j];
        assert(sorted.contains(x));
        vstd::seq_lib::to_multiset_contains(sorted, x);
        vstd::seq_lib::to_multiset_contains(input, x);
        assert(input.contains(x));
        let i = choose|i: int| 0 <= i < input.len() && input[i] == x;
        assert(input[i].1 == i);
    }
}

/// The positions of `keys` in sorted order, equal keys in the order of their positions.
fn sorted_positions(keys: &Vec<i64>, descending: bool) -> (order: Vec<usize>)
    ensures
        descending ==> is_descending_order(keys@, order@),
        !descending ==> is_ascending_order(keys@, order@),
{
    let n = keys.len();
    let mut pairs: Vec<(i64, usize)> = Vec::new();
    let mut i: usize = 0;
    while i < n
        invariant
            n == keys@.len(),
            i <= n,
            pairs@ == tagged(keys@, descending).take(i as int),
        decreases n - i,
    {
        let k: i64 = if descending {
            -1 - keys[i]
        } else {
            keys[i]
        };
        pairs.push((k, i));
        proof {
            assert(pairs@ =~= tagged(keys@, descending).take(i + 1));
        }
        i += 1;
    }
    proof {
        assert(pairs@ =~= tagged(keys@, descending));
    }
    sort_pairs(&mut pairs);
    proof {
        lemma_sorted_tagged(keys@, descending, pairs@);
    }
    let mut order: Vec<usize> = Vec::new();
    let mut j: usize = 0;
    while j < n
        invariant
            n == keys@.len(),
            n == pairs@.len(),
            j <= n,
            order@.len() == j,
            forall|a: int| 0 <= a < j ==> (#[trigger] order@[a]) == pairs@[a].1,
        decreases n - j,
    {
        order.push(pairs[j].1);
        j += 1;
    }
    proof {
        let t = tagged(keys@, descending);
        assert forall|a: int, b: int| 0 <= a < b < order@.len() implies (#[trigger] order@[a])
            != (#[trigger] order@[b]) by {
            assert(pairs@[a] == t[pairs@[a].1 as int]);
            assert(pairs@[b] == t[pairs@[b].1 as int]);
        }
        assert forall|a: int, b: int| 0 <= a < b < order@.len() implies if descending {
            before_descending(keys@, (#[trigger] order@[a]) as int, (#[trigger] order@[b]) as int)
        } else {
            before_ascending(keys@, order@[a] as int, order@[b] as int)
        } by {
            assert(pairs@[a] == t[pairs@[a].1 as int]);
            assert(pairs@[b] == t[pairs@[b].1 as int]);
            assert(pair_le(pairs@[a], pairs@[b]));
            assert(pairs@[a] != pairs@[b]);
        }
    }
    order
}

/// The stable ascending order of `keys`: position `order[r]` holds the key
/// of rank `r`.
pub fn ascending_order(keys: &Vec<i64>) -> (order: Vec<usize>)
    ensures
        is_ascending_order(keys@, order@),
{
    sorted_positions(keys, false)
}

/// The stable descending order of `keys`.
pub fn descending_order(keys: &Vec<i64>) -> (order: Vec<usize>)
    ensures
        is_descending_order(keys@, order@),
{
    sorted_positions(keys, true)
}

/// The positions below `n` in their own order.
pub open spec fn identity_order(n: nat) -> Seq<usize> {
    Seq::new(n, |i: int| i as usize)
}

/// A rearrangement of the positions below `n` names each of them once.
pub proof fn lemma_rearranged_identity(order: Seq<usize>, n: nat)
    requires
        n <= usize::MAX,
        order.to_multiset() == identity_order(n).to_multiset(),
    ensures
        is_permutation(order, n),
{
    let input = identity_order(n);
    vstd::seq_lib::to_multiset_len(order);
    vstd::seq_lib::to_multiset_len(input);
    assert(input.no_duplicates());
    input.lemma_multiset_has_no_duplicates();
    order.lemma_multiset_has_no_duplicates_conv();
    assert forall|j: int| 0 <= j < order.len() implies (#[trigger] order[j]) < n by {
        let x = order[j];
        assert(order.contains(x));
        vstd::seq_lib::to_multiset_contains(order, x);
        vstd::seq_lib::to_multiset_contains(input, x);
        assert(input.contains(x));
        let i = choose|i: int| 0 <= i < input.len() && input[i] == x;
        assert(input[i] == i);
    }
}

/// Tells whether `order` names each position below `n` exactly once.
pub fn check_permutation(order: &Vec<usize>, n: usize) -> (valid: bool)
    ensures
        valid == is_permutation(order@, n as nat),
{
    if order.len() != n {
        return false;
    }
    let mut seen: Vec<bool> = Vec::new();
    let mut k: usize = 0;
    while k < n
        invariant
            k <= n,
            seen@.len() == k,
            forall|x: int| 0 <= x < k ==> !(#[trigger] seen@[x]),
        decreases n - k,
    {
        seen.push(false);
        k += 1;
    }
    let mut i: usize = 0;
    while i < n
        invariant
            i <= n,
            n == order@.len(),
            seen@.len() == n,
            forall|j: int| 0 <= j < i ==> (#[trigger] order@[j]) < n,
            forall|a: int, b: int|
                0 <= a < b < i ==> (#[trigger] order@[a]) != (#[trigger] order@[b]),
            forall|x: int|
                0 <= x < n ==> ((#[trigger] seen@[x]) <==> exists|j: int|
                    0 <= j < i && (#[trigger] order@[j]) == x),
        decreases n - i,
    {
        let v = order[i];
        if v >= n {
            return false;
        }
        if seen[v] {
            proof {
                let j = choose|j: int| 0 <= j < i && (#[trigger] order@[j]) == v;
                assert(order@[j] == order@[i as int]);
            }
            return false;
        }
        let ghost before = seen@;
        seen.set(v, true);
        proof {
            assert forall|x: int| 0 <= x < n implies ((#[trigger] seen@[x]) <==> exists|j: int|
                0 <= j < i + 1 && (#[trigger] order@[j]) == x) by {
                if x == v {
                    assert(order@[i as int] == x);
                } else {
                    if before[x] {
                        let j = choose|j: int| 0 <= j < i && (#[trigger] order@[j]) == x;
                        assert(0 <= j < i + 1 && order@[j] == x);
                    }
                    if exists|j: int| 0 <= j < i + 1 && (#[trigger] order@[j]) == x {
                        let j = choose|j: int| 0 <= j < i + 1 && (#[trigger] order@[j]) == x;
                        assert(j != i);
                        assert(0 <= j < i && order@[j] == x);
                    }
                }
            }
        }
        i += 1;
    }
    true
}

/// The place at which a permutation names the position `x`.
pub open spec fn rank_of(order: Seq<usize>, x: int) -> int {
    choose|r: int| 0 <= r < order.len() && order[r] == x
}

/// A permutation names every position: each position below `n` stands at
/// some place of `order`.
pub proof fn lemma_permutation_onto(order: Seq<usize>, n: nat)
    requires
        is_permutation(order, n),
    ensures
        forall|x: int|
            0 <= x < n ==> 0 <= (#[trigger] rank_of(order, x)) < n && order[rank_of(order, x)]
                == x,
{
    let ints = order.map_values(|x: usize| x as int);
    assert(ints.no_duplicates()) by {
        assert forall|i: int, j: int|
            0 <= i < ints.len() && 0 <= j < ints.len() && i != j implies ints[i] != ints[j] by {
            if i < j {
                assert(order[i] != order[j]);
            } else {
                assert(order[j] != order[i]);
            }
        }
    }
    ints.unique_seq_to_set();
    vstd::seq_lib::seq_to_set_is_finite(ints);
    vstd::set_lib::lemma_int_range(0, n as int);
    let range = vstd::set_lib::set_int_range(0, n as int);
    assert(ints.to_set().subset_of(range)) by {
        assert forall|a: int| ints.to_set().contains(a) implies range.contains(a) by {
            let i = choose|i: int| 0 <= i < ints.len() && ints[i] == a;
            assert(order[i] < n);
        }
    }
    vstd::set_lib::lemma_subset_equality(ints.to_set(), range);
    assert forall|x: int| 0 <= x < n implies 0 <= (#[trigger] rank_of(order, x)) < n
        && order[rank_of(order, x)] == x by {
        assert(range.contains(x));
        assert(ints.to_set().contains(x));
        assert(ints.contains(x));
        let r = choose|r: int| 0 <= r < ints.len() && ints[r] == x;
        assert(0 <= r < order.len() && order[r] == x);
    }
}

/// Two stable ascending orders of the same keys agree up to place `upto`.
proof fn lemma_ascending_orders_agree(keys: Seq<i64>, a: Seq<usize>, b: Seq<usize>, upto: int)
    requires
        is_ascending_order(keys, a),
        is_ascending_order(keys, b),
        0 <= upto <= keys.len(),
    ensures
        forall|i: int| 0 <= i < upto ==> a[i] == b[i],
    decreases upto,
{
    if upto > 0 {
        lemma_ascending_orders_agree(keys, a, b, upto - 1);
        let i = upto - 1;
        if a[i] != b[i] {
            lemma_permutation_onto(a, keys.len());
            lemma_permutation_onto(b, keys.len());
            let p = rank_of(b, a[i] as int);
            let q = rank_of(a, b[i] as int);
            assert(b[p] == a[i]);
            assert(a[q] == b[i]);
            if p < i {
                assert(a[p] == b[p]);
                assert(a[p] != a[i]);
            }
            if q < i {
                assert(b[q] == a[q]);
                assert(b[q] != b[i]);
            }
            assert(before_ascending(keys, b[i] as int, b[p] as int));
            assert(before_ascending(keys, a[i] as int, a[q] as int));
        }
    }
}

/// Keys have one stable ascending order.
pub proof fn lemma_ascending_order_unique(keys: Seq<i64>, a: Seq<usize>, b: Seq<usize>)
    requires
        is_ascending_order(keys, a),
        is_ascending_order(keys, b),
    ensures
        a == b,
{
    lemma_ascending_orders_agree(keys, a, b, keys.len() as int);
    assert(a =~= b);
}

/// Two stable descending orders of the same keys agree up to place `upto`.
proof fn lemma_descending_orders_agree(keys: Seq<i64>, a: Seq<usize>, b: Seq<usize>, upto: int)
    requires
        is_descending_order(keys, a),
        is_descending_order(keys, b),
        0 <= upto <= keys.len(),
    ensures
        forall|i: int| 0 <= i < upto ==> a[i] == b[i],
    decreases upto,
{
    if upto > 0 {
        lemma_descending_orders_agree(keys, a, b, upto - 1);
        let i = upto - 1;
        if a[i] != b[i] {
            lemma_permutation_onto(a, keys.len());
            lemma_permutation_onto(b, keys.len());
            let p = rank_of(b, a[i] as int);
            let q = rank_of(a, b[i] as int);
            assert(b[p] == a[i]);
            assert(a[q] == b[i]);
            if p < i {
                assert(a[p] == b[p]);
                assert(a[p] != a[i]);
            }
            if q < i {
                assert(b[q] == a[q]);
                assert(b[q] != b[i]);
            }
            assert(before_descending(keys, b[i] as int, b[p] as int));
            assert(before_descending(keys, a[i] as int, a[q] as int));
        }
    }
}

/// Keys have one stable descending order.
pub proof fn lemma_descending_order_unique(keys: Seq<i64>, a: Seq<usize>, b: Seq<usize>)
    requires
        is_descending_order(keys, a),
        is_descending_order(keys, b),
    ensures
        a == b,
{
    lemma_descending_orders_agree(keys, a, b, keys.len() as int);
    assert(a =~= b);
}

} // verus!
