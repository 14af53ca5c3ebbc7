//! Putting things in order.
use crate::text::{is_le, text_le};
use vstd::prelude::*;

verus! {

/// `order` lists every index of `keys` once, the larger key first, and of
/// two equal keys the one that comes first in `keys`. At most one list does.
pub open spec fn descending(keys: Seq<u64>, order: Seq<usize>) -> bool {
    &&& order.len() == keys.len()
    &&& forall|i: int| 0 <= i < order.len() ==> (#[trigger] order[i]) < keys.len()
    &&& forall|i: int, j: int|
        #![trigger order[i], order[j]]
        0 <= i < j < order.len() ==> precedes(keys, order[i], order[j])
}

/// Index `a` comes before index `b` in a descending order of `keys`.
pub open spec fn precedes(keys: Seq<u64>, a: usize, b: usize) -> bool {
    keys[a as int] > keys[b as int] || (keys[a as int] == keys[b as int] && a < b)
}

/// The indices of `keys` in descending order of the keys.
pub fn descending_order(keys: &Vec<u64>) -> (order: Vec<usize>)
    ensures
        descending(keys@, order@),
{
    let mut order: Vec<usize> = Vec::new();
    let mut n: usize = 0;
    while n < keys.len()
        invariant
            n <= keys@.len(),
            descending(keys@.take(n as int), order@),
        decreases keys@.len() - n,
    {
        let mut at: usize = order.len();
        while at > 0 && keys[order[at - 1]] < keys[n]
            invariant
                n < keys@.len(),
                at <= order@.len(),
                descending(keys@.take(n as int), order@),
                forall|j: int|
                    at <= j < order@.len() ==> keys@[(#[trigger] order@[j]) as int] < keys@[n as int],
            decreases at,
        {
            at = at - 1;
        }
        let ghost before = order@;
        order.insert(at, n);
        proof {
            let now = keys@.take(n + 1);
            assert forall|i: int, j: int|
                #![trigger order@[i], order@[j]]
                0 <= i < j < order@.len() implies precedes(now, order@[i], order@[j]) by {
                let x = if i < at { i } else { i - 1 };
                let y = if j < at { j } else { j - 1 };
                if i != at && j != at {
                    assert(order@[i] == before[x] && order@[j] == before[y]);
                    assert(precedes(keys@.take(n as int), before[x], before[y]));
                } else if i == at {
                    assert(order@[j] == before[y]);
                } else {
                    assert(order@[i] == before[x]);
                    if x < at - 1 {
                        assert(precedes(keys@.take(n as int), before[x], before[at - 1]));
                    }
                }
            }
            assert forall|i: int| 0 <= i < order@.len() implies (#[trigger] order@[i])
                < now.len() by {
                let x = if i < at { i } else { i - 1 };
                if i != at {
                    assert(order@[i] == before[x]);
                }
            }
        }
        n = n + 1;
    }
    assert(keys@.take(n as int) == keys@);
    order
}

/// In a descending order every index occurs.
pub proof fn lemma_descending_complete(keys: Seq<u64>, order: Seq<usize>, k: int)
    requires
        descending(keys, order),
        0 <= k < keys.len(),
    ensures
        exists|i: int| 0 <= i < order.len() && (#[trigger] order[i]) == k,
{
    let image = order.map_values(|x: usize| x as int);
    assert(image.no_duplicates()) by {
        assert forall|i: int, j: int| 0 <= i < image.len() && 0 <= j < image.len() && i != j
            implies image[i] != image[j] by {
            let a = if i < j { i } else { j };
            let b = if i < j { j } else { i };
            assert(precedes(keys, order[a], order[b]));
        }
    }
    let all = Set::new(|x: int| 0 <= x < keys.len());
    vstd::set_lib::lemma_int_range(0, keys.len() as int);
    assert(all =~= vstd::set_lib::set_int_range(0, keys.len() as int));
    image.unique_seq_to_set();
    assert(image.to_set().subset_of(all)) by {
        assert forall|x: int| image.to_set().contains(x) implies all.contains(x) by {
            let i = choose|i: int| 0 <= i < image.len() && image[i] == x;
            assert(order[i] < keys.len());
        }
    }
    vstd::set_lib::lemma_subset_equality(image.to_set(), all);
    assert(image.to_set().contains(k));
    let i = choose|i: int| 0 <= i < image.len() && image[i] == k;
    assert(order[i] == k);
}

/// Only one list of indices is a descending order.
pub proof fn lemma_descending_unique(keys: Seq<u64>, a: Seq<usize>, b: Seq<usize>)
    requires
        descending(keys, a),
        descending(keys, b),
    ensures
        a == b,
{
    lemma_descending_agree(keys, a, b, keys.len() as int);
    assert(a.take(keys.len() as int) == a && b.take(keys.len() as int) == b);
}

proof fn lemma_descending_agree(keys: Seq<u64>, a: Seq<usize>, b: Seq<usize>, n: int)
    requires
        descending(keys, a),
        descending(keys, b),
        0 <= n <= keys.len(),
    ensures
        a.take(n) == b.take(n),
    decreases n,
{
    if n > 0 {
        let i = n - 1;
        lemma_descending_agree(keys, a, b, i);
        assert forall|x: int| 0 <= x < i implies a[x] == b[x] by {
            assert(a.take(i)[x] == b.take(i)[x]);
        }
        lemma_descending_complete(keys, b, a[i] as int);
        lemma_descending_complete(keys, a, b[i] as int);
        let j = choose|j: int| 0 <= j < b.len() && (#[trigger] b[j]) == a[i] as int;
        let k = choose|k: int| 0 <= k < a.len() && (#[trigger] a[k]) == b[i] as int;
        if j < i {
            assert(precedes(keys, a[j], a[i]));
        } else if k < i {
            assert(precedes(keys, b[k], b[i]));
        } else if j > i && k > i {
            assert(precedes(keys, b[i], b[j]));
            assert(precedes(keys, a[i], a[k]));
        }
        assert(a[i] == b[i]);
        assert(a.take(n) =~= b.take(n));
    }
}

/// The indices of `n` items.
pub open spec fn indices(n: nat) -> Seq<usize> {
    Seq::new(n, |i: int| i as usize)
}

/// The items of `s` that `order` names, in that order.
pub open spec fn picks<A>(s: Seq<A>, order: Seq<usize>) -> Seq<A> {
    order.map_values(|i: usize| s[i as int])
}

/// `s` in descending order of `keys`, which holds the key of every item.
pub open spec fn ranked<A>(s: Seq<A>, keys: Seq<u64>) -> Seq<A> {
    picks(s, choose|order: Seq<usize>| descending(keys, order))
}

/// Picking in a descending order is ranking.
pub proof fn lemma_ranked<A>(s: Seq<A>, keys: Seq<u64>, order: Seq<usize>)
    requires
        descending(keys, order),
        keys.len() == s.len(),
        s.len() <= usize::MAX,
    ensures
        picks(s, order) == ranked(s, keys),
        picks(s, order).to_multiset() == s.to_multiset(),
{
    let chosen = choose|o: Seq<usize>| descending(keys, o);
    lemma_descending_unique(keys, order, chosen);
    lemma_order_multiset(keys, order);
    lemma_map_multiset(order, indices(keys.len()), |i: usize| s[i as int]);
    assert(picks(s, indices(keys.len())) =~= s);
}

/// A descending order is a permutation of the indices.
proof fn lemma_order_multiset(keys: Seq<u64>, order: Seq<usize>)
    requires
        descending(keys, order),
        keys.len() <= usize::MAX,
    ensures
        order.to_multiset() == indices(keys.len()).to_multiset(),
{
    broadcast use vstd::seq_lib::group_to_multiset_ensures;

    let all = indices(keys.len());
    assert(order.no_duplicates()) by {
        assert forall|i: int, j: int| 0 <= i < order.len() && 0 <= j < order.len() && i != j
            implies order[i] != order[j] by {
            if i < j {
                assert(precedes(keys, order[i], order[j]));
            } else {
                assert(precedes(keys, order[j], order[i]));
            }
        }
    }
    assert(all.no_duplicates());
    order.lemma_multiset_has_no_duplicates();
    all.lemma_multiset_has_no_duplicates();
    assert forall|x: usize| order.to_multiset().count(x) == all.to_multiset().count(x) by {
        if order.contains(x) {
            let i = choose|i: int| 0 <= i < order.len() && order[i] == x;
            assert(order[i] < keys.len());
            assert(all[x as int] == x);
            assert(all.contains(x));
        }
        if all.contains(x) {
            lemma_descending_complete(keys, order, x as int);
            let i = choose|i: int| 0 <= i < order.len() && (#[trigger] order[i]) == x as int;
            assert(order[i] == x);
            assert(order.contains(x));
        }
    }
    assert(order.to_multiset() =~= all.to_multiset());
}

/// Permuting and then mapping is mapping and then permuting.
proof fn lemma_map_multiset<A, B>(a: Seq<A>, b: Seq<A>, f: spec_fn(A) -> B)
    requires
        a.to_multiset() == b.to_multiset(),
    ensures
        a.map_values(f).to_multiset() == b.map_values(f).to_multiset(),
    decreases a.len(),
{
    broadcast use vstd::seq_lib::group_to_multiset_ensures;

    assert(a.len() == a.to_multiset().len() && b.len() == b.to_multiset().len());
    if a.len() > 0 {
        let x = a.last();
        assert(a.contains(x));
        assert(b.to_multiset().count(x) > 0);
        assert(b.contains(x));
        let k = choose|k: int| 0 <= k < b.len() && b[k] == x;
        let n = a.len() - 1;
        assert(a.remove(n) =~= a.drop_last());
        vstd::seq_lib::to_multiset_remove(a, n);
        vstd::seq_lib::to_multiset_remove(b, k);
        lemma_map_multiset(a.drop_last(), b.remove(k), f);
        let fa = a.map_values(f);
        let fb = b.map_values(f);
        assert(fa.remove(n) =~= a.drop_last().map_values(f));
        assert(fb.remove(k) =~= b.remove(k).map_values(f));
        vstd::seq_lib::to_multiset_remove(fa, n);
        vstd::seq_lib::to_multiset_remove(fb, k);
        assert(fa.to_multiset() =~= fa.remove(n).to_multiset().insert(f(x)));
        assert(fb.to_multiset() =~= fb.remove(k).to_multiset().insert(f(x)));
    } else {
        assert(a.map_values(f) =~= b.map_values(f));
    }
}

// -------------------------------------------------------------- of names

pub proof fn lemma_text_le_reflexive(a: Seq<char>)
    ensures
        text_le(a, a),
    decreases a.len(),
{
    if a.len() > 0 {
        lemma_text_le_reflexive(a.skip(1));
    }
}

pub proof fn lemma_text_le_total(a: Seq<char>, b: Seq<char>)
    ensures
        text_le(a, b) || text_le(b, a),
    decreases a.len(),
{
    if a.len() > 0 && b.len() > 0 {
        lemma_text_le_total(a.skip(1), b.skip(1));
    }
}

pub proof fn lemma_text_le_transitive(a: Seq<char>, b: Seq<char>, c: Seq<char>)
    requires
        text_le(a, b),
        text_le(b, c),
    ensures
        text_le(a, c),
    decreases a.len(),
{
    if a.len() > 0 && b.len() > 0 && c.len() > 0 && a[0] == b[0] && b[0] == c[0] {
        lemma_text_le_transitive(a.skip(1), b.skip(1), c.skip(1));
    }
}

/// The names stand in ascending order.
pub open spec fn ascending(names: Seq<String>) -> bool {
    forall|i: int, j: int|
        #![trigger names[i], names[j]]
        0 <= i < j < names.len() ==> text_le(names[i]@, names[j]@)
}

/// `names` in ascending order.
pub fn sorted_names(names: Vec<String>) -> (r: Vec<String>)
    ensures
        ascending(r@),
        r@.to_multiset() == names@.to_multiset(),
{
    broadcast use vstd::seq_lib::group_to_multiset_ensures;

    let ghost all = names@;
    let mut rest = names;
    let mut r: Vec<String> = Vec::new();
    assert(r@.to_multiset() =~= vstd::multiset::Multiset::<String>::empty());
    assert(r@.to_multiset().add(rest@.to_multiset()) =~= all.to_multiset());
    while rest.len() > 0
        invariant
            ascending(r@),
            r@.to_multiset().add(rest@.to_multiset()) =~= all.to_multiset(),
        decreases rest@.len(),
    {
        broadcast use vstd::seq_lib::group_to_multiset_ensures;

        let ghost rest_before = rest@;
        let last = rest.len() - 1;
        let name = rest.remove(last);
        let mut at: usize = r.len();
        proof {
            lemma_text_le_reflexive(name@);
        }
        while at > 0 && !is_le(r[at - 1].as_str(), name.as_str())
            invariant
                at <= r@.len(),
                ascending(r@),
                forall|j: int| at <= j < r@.len() ==> text_le(name@, (#[trigger] r@[j])@),
            decreases at,
        {
            proof {
                lemma_text_le_total(r@[at - 1]@, name@);
            }
            at = at - 1;
        }
        let ghost before = r@;
        r.insert(at, name);
        proof {
            assert forall|i: int, j: int|
                #![trigger r@[i], r@[j]]
                0 <= i < j < r@.len() implies text_le(r@[i]@, r@[j]@) by {
                let x = if i < at { i } else { i - 1 };
                let y = if j < at { j } else { j - 1 };
                if i != at && j != at {
                    assert(r@[i] == before[x] && r@[j] == before[y]);
                } else if i == at {
                    assert(r@[j] == before[y]);
                } else {
                    assert(r@[i] == before[x]);
                    if x < at - 1 {
                        lemma_text_le_transitive(before[x]@, before[at - 1]@, name@);
                    }
                }
            }
            assert(rest@.to_multiset() =~= rest_before.to_multiset().remove(rest_before[last as int]));
            assert(r@.to_multiset() =~= before.to_multiset().insert(name));
            assert(r@.to_multiset().add(rest@.to_multiset()) =~= all.to_multiset());
        }
    }
    assert(rest@.to_multiset() =~= vstd::multiset::Multiset::<String>::empty());
    assert(r@.to_multiset() =~= all.to_multiset());
    r
}

/// Names in ascending order stand in the order of a dictionary.
pub proof fn law_ascending(names: Seq<String>, i: int, j: int)
    requires
        ascending(names),
        0 <= i < j < names.len(),
    ensures
        text_le(names[i]@, names[j]@),
{
}

} // verus!
