//! Sets of numbers listed in increasing order.

use std::collections::BTreeMap;

use vstd::prelude::*;
use vstd::std_specs::cmp::OrdSpec;
use vstd::std_specs::iter::IteratorSpec;

verus! {

broadcast use vstd::std_specs::btree::group_btree_axioms;

/// The members of `ids` below `bound`, in increasing order.
pub open spec fn below(ids: Set<int>, bound: nat) -> Seq<int>
    decreases bound,
{
    if bound == 0 {
        seq![]
    } else {
        let rest = below(ids, (bound - 1) as nat);
        if ids.contains(bound - 1) {
            rest.push(bound - 1)
        } else {
            rest
        }
    }
}

/// The members of `ids`, all of which fit in 128 bits, in increasing order.
pub open spec fn increasing(ids: Set<int>) -> Seq<int> {
    below(ids, 0x1_0000_0000_0000_0000_0000_0000_0000_0000nat)
}

/// Whether `list` holds each member of `ids` once, smaller members first.
pub open spec fn lists(list: Seq<int>, ids: Set<int>) -> bool {
    &&& forall|i: int, j: int| 0 <= i < j < list.len() ==> #[trigger] list[i] < #[trigger] list[j]
    &&& forall|id: int| #[trigger] list.contains(id) <==> ids.contains(id)
}

proof fn lemma_below(ids: Set<int>, bound: nat)
    ensures
        forall|i: int, j: int|
            0 <= i < j < below(ids, bound).len() ==> #[trigger] below(ids, bound)[i]
                < #[trigger] below(ids, bound)[j],
        forall|id: int| #[trigger]
            below(ids, bound).contains(id) <==> (ids.contains(id) && 0 <= id < bound),
    decreases bound,
{
    if bound > 0 {
        let rest = below(ids, (bound - 1) as nat);
        let list = below(ids, bound);
        lemma_below(ids, (bound - 1) as nat);
        assert forall|id: int| #[trigger] list.contains(id) <==> (ids.contains(id) && 0 <= id
            < bound) by {
            if list.contains(id) {
                let p = choose|p: int| 0 <= p < list.len() && list[p] == id;
                if p < rest.len() {
                    assert(rest[p] == id);
                    assert(rest.contains(id));
                }
            }
            if ids.contains(id) && 0 <= id < bound {
                if id < bound - 1 {
                    assert(rest.contains(id));
                    let p = choose|p: int| 0 <= p < rest.len() && rest[p] == id;
                    assert(list[p] == id);
                } else {
                    assert(list[rest.len() as int] == id);
                }
            }
        }
        assert forall|i: int, j: int| 0 <= i < j < list.len() implies #[trigger] list[i]
            < #[trigger] list[j] by {
            if j == rest.len() {
                assert(rest[i] == list[i]);
                assert(rest.contains(rest[i]));
            } else {
                assert(rest[i] == list[i] && rest[j] == list[j]);
            }
        }
    }
}

/// `increasing` lists its argument.
pub proof fn lemma_increasing_lists(ids: Set<int>)
    requires
        forall|id: int| #[trigger] ids.contains(id) ==> 0 <= id <= u128::MAX,
    ensures
        lists(increasing(ids), ids),
{
    lemma_below(ids, 0x1_0000_0000_0000_0000_0000_0000_0000_0000nat);
}

/// A set can be listed in one way only.
pub proof fn lemma_lists_is_unique(left: Seq<int>, right: Seq<int>, ids: Set<int>)
    requires
        lists(left, ids),
        lists(right, ids),
    ensures
        left == right,
    decreases left.len(),
{
    if left.len() == 0 {
        if right.len() > 0 {
            assert(right.contains(right[0]));
            assert(left.contains(right[0]));
        }
        assert(left =~= right);
    } else {
        assert(left.contains(left.last()));
        assert(right.contains(left.last()));
        assert(right.contains(right.last()));
        assert(left.contains(right.last()));
        let p = choose|p: int| 0 <= p < right.len() && right[p] == left.last();
        let q = choose|q: int| 0 <= q < left.len() && left[q] == right.last();
        assert(left.last() == right.last());
        let rest = ids.remove(left.last());
        lemma_lists_without_last(left, ids);
        lemma_lists_without_last(right, ids);
        lemma_lists_is_unique(left.drop_last(), right.drop_last(), rest);
        assert(left =~= left.drop_last().push(left.last()));
        assert(right =~= right.drop_last().push(right.last()));
    }
}

proof fn lemma_lists_without_last(list: Seq<int>, ids: Set<int>)
    requires
        lists(list, ids),
        list.len() > 0,
    ensures
        lists(list.drop_last(), ids.remove(list.last())),
{
    let front = list.drop_last();
    assert forall|id: int| #[trigger] front.contains(id) <==> ids.remove(list.last()).contains(
        id,
    ) by {
        if front.contains(id) {
            let p = choose|p: int| 0 <= p < front.len() && front[p] == id;
            assert(list[p] == id);
            assert(list.contains(id));
        }
        if ids.contains(id) && id != list.last() {
            assert(list.contains(id));
            let p = choose|p: int| 0 <= p < list.len() && list[p] == id;
            assert(front[p] == id);
        }
    }
}

/// The members of `ids` as integers.
pub open spec fn ints64(ids: Set<u64>) -> Set<int> {
    Set::new(|id: int| 0 <= id <= u64::MAX && ids.contains(id as u64))
}

/// The members of `ids` as integers.
pub open spec fn ints128(ids: Set<u128>) -> Set<int> {
    Set::new(|id: int| 0 <= id <= u128::MAX && ids.contains(id as u128))
}

/// The numbers in `list` as integers.
pub open spec fn list64(list: Seq<u64>) -> Seq<int> {
    Seq::new(list.len(), |i: int| list[i] as int)
}

/// The numbers in `list` as integers.
pub open spec fn list128(list: Seq<u128>) -> Seq<int> {
    Seq::new(list.len(), |i: int| list[i] as int)
}

/// The keys of a map are visited from the smallest up.
proof fn lemma_keys64_increase(listed: Seq<&u64>)
    requires
        vstd::std_specs::btree::increasing_seq(listed),
    ensures
        forall|i: int, j: int|
            0 <= i < j < listed.len() ==> *#[trigger] listed[i] < *#[trigger] listed[j],
{
    broadcast use vstd::laws_eq::group_laws_eq;
    broadcast use vstd::laws_cmp::group_laws_cmp;

    reveal(vstd::laws_cmp::obeys_cmp_partial_ord);
    reveal(vstd::laws_cmp::obeys_cmp_ord);
    assert(vstd::laws_cmp::obeys_cmp::<u64>());
    assert(vstd::laws_cmp::obeys_cmp::<&u64>());
    assert forall|i: int, j: int| 0 <= i < j < listed.len() implies *#[trigger] listed[i]
        < *#[trigger] listed[j] by {
        assert(OrdSpec::cmp_spec(&listed[i], &listed[j]) is Less);
    }
}

/// The keys of `map` in increasing order.
pub fn keys64<V>(map: &BTreeMap<u64, V>) -> (keys: Vec<u64>)
    ensures
        list64(keys@) == increasing(ints64(map@.dom())),
        forall|i: int| 0 <= i < keys@.len() ==> map@.contains_key(#[trigger] keys@[i]),
{
    let mut keys: Vec<u64> = Vec::new();
    let ghost listed = map.keys().remaining();
    for key in it: map.keys()
        invariant
            it.seq() == listed,
            keys@.len() == it.index(),
            forall|i: int| 0 <= i < keys@.len() ==> keys@[i] == *listed[i],
    {
        keys.push(*key);
    }
    proof {
        lemma_keys64_increase(listed);
        let ids = ints64(map@.dom());
        let list = list64(keys@);
        assert(listed.unref() =~= keys@);
        assert(keys@.to_set() == map@.dom());
        assert forall|id: int| #[trigger] list.contains(id) <==> ids.contains(id) by {
            if list.contains(id) {
                let p = choose|p: int| 0 <= p < list.len() && list[p] == id;
                assert(keys@.to_set().contains(keys@[p]));
            }
            if ids.contains(id) {
                assert(keys@.to_set().contains(id as u64));
                let p = choose|p: int| 0 <= p < keys@.len() && keys@[p] == id as u64;
                assert(list[p] == id);
            }
        }
        lemma_increasing_lists(ids);
        lemma_lists_is_unique(list, increasing(ids), ids);
        assert forall|i: int| 0 <= i < keys@.len() implies map@.contains_key(
            #[trigger] keys@[i],
        ) by {
            assert(keys@.to_set().contains(keys@[i]));
        }
    }
    keys
}

/// The keys of a map are visited from the smallest up.
proof fn lemma_keys128_increase(listed: Seq<&u128>)
    requires
        vstd::std_specs::btree::increasing_seq(listed),
    ensures
        forall|i: int, j: int|
            0 <= i < j < listed.len() ==> *#[trigger] listed[i] < *#[trigger] listed[j],
{
    broadcast use vstd::laws_eq::group_laws_eq;
    broadcast use vstd::laws_cmp::group_laws_cmp;

    reveal(vstd::laws_cmp::obeys_cmp_partial_ord);
    reveal(vstd::laws_cmp::obeys_cmp_ord);
    assert(vstd::laws_cmp::obeys_cmp::<u128>());
    assert(vstd::laws_cmp::obeys_cmp::<&u128>());
    assert forall|i: int, j: int| 0 <= i < j < listed.len() implies *#[trigger] listed[i]
        < *#[trigger] listed[j] by {
        assert(OrdSpec::cmp_spec(&listed[i], &listed[j]) is Less);
    }
}

/// The keys of `map` in increasing order.
pub fn keys128<V>(map: &BTreeMap<u128, V>) -> (keys: Vec<u128>)
    ensures
        list128(keys@) == increasing(ints128(map@.dom())),
        forall|i: int| 0 <= i < keys@.len() ==> map@.contains_key(#[trigger] keys@[i]),
{
    let mut keys: Vec<u128> = Vec::new();
    let ghost listed = map.keys().remaining();
    for key in it: map.keys()
        invariant
            it.seq() == listed,
            keys@.len() == it.index(),
            forall|i: int| 0 <= i < keys@.len() ==> keys@[i] == *listed[i],
    {
        keys.push(*key);
    }
    proof {
        lemma_keys128_increase(listed);
        let ids = ints128(map@.dom());
        let list = list128(keys@);
        assert(listed.unref() =~= keys@);
        assert(keys@.to_set() == map@.dom());
        assert forall|id: int| #[trigger] list.contains(id) <==> ids.contains(id) by {
            if list.contains(id) {
                let p = choose|p: int| 0 <= p < list.len() && list[p] == id;
                assert(keys@.to_set().contains(keys@[p]));
            }
            if ids.contains(id) {
                assert(keys@.to_set().contains(id as u128));
                let p = choose|p: int| 0 <= p < keys@.len() && keys@[p] == id as u128;
                assert(list[p] == id);
            }
        }
        lemma_increasing_lists(ids);
        lemma_lists_is_unique(list, increasing(ids), ids);
        assert forall|i: int| 0 <= i < keys@.len() implies map@.contains_key(
            #[trigger] keys@[i],
        ) by {
            assert(keys@.to_set().contains(keys@[i]));
        }
    }
    keys
}

} // verus!
