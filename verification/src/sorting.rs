//! Stable sorting.
//!
//! Whatever is sorted is sorted by a key, a sequence of integers that is compared
//! lexicographically. Sorting gives the order of the positions, so that the items
//! themselves need not move until the order is known.

use vstd::prelude::*;

use crate::float_bits::F32;
use crate::text::chars_of;

verus! {

/// The lexicographic `<=`: a proper prefix comes first.
pub open spec fn lex_le(left: Seq<int>, right: Seq<int>) -> bool
    decreases left.len(),
{
    if left.len() == 0 {
        true
    } else if right.len() == 0 {
        false
    } else if left[0] == right[0] {
        lex_le(left.drop_first(), right.drop_first())
    } else {
        left[0] < right[0]
    }
}

pub proof fn lemma_lex_total(left: Seq<int>, right: Seq<int>)
    ensures
        lex_le(left, right) || lex_le(right, left),
    decreases left.len(),
{
    if left.len() > 0 && right.len() > 0 {
        lemma_lex_total(left.drop_first(), right.drop_first());
    }
}

pub proof fn lemma_lex_transitive(a: Seq<int>, b: Seq<int>, c: Seq<int>)
    requires
        lex_le(a, b),
        lex_le(b, c),
    ensures
        lex_le(a, c),
    decreases a.len(),
{
    if a.len() > 0 && b.len() > 0 && c.len() > 0 && a[0] == b[0] && b[0] == c[0] {
        lemma_lex_transitive(a.drop_first(), b.drop_first(), c.drop_first());
    }
}

pub proof fn lemma_lex_antisymmetric(left: Seq<int>, right: Seq<int>)
    requires
        lex_le(left, right),
        lex_le(right, left),
    ensures
        left == right,
    decreases left.len(),
{
    if left.len() > 0 && right.len() > 0 {
        lemma_lex_antisymmetric(left.drop_first(), right.drop_first());
        assert(left =~= seq![left[0]] + left.drop_first());
        assert(right =~= seq![right[0]] + right.drop_first());
    } else {
        assert(left =~= right);
    }
}

/// Whether the item at position `i` comes before the one at `j`: by its key, and among equal
/// keys by its position.
pub open spec fn comes_before(keys: Seq<Seq<int>>, i: int, j: int) -> bool {
    lex_le(keys[i], keys[j]) && (!lex_le(keys[j], keys[i]) || i < j)
}

/// Whether `order` lists the positions from `lo` up to `hi`, each once, in stable sorted order.
pub open spec fn orders(keys: Seq<Seq<int>>, order: Seq<int>, lo: int, hi: int) -> bool {
    &&& order.len() == hi - lo
    &&& forall|k: int| 0 <= k < order.len() ==> lo <= #[trigger] order[k] < hi
    &&& forall|i: int, j: int|
        0 <= i < j < order.len() ==> comes_before(keys, #[trigger] order[i], #[trigger] order[j])
    &&& forall|position: int| lo <= position < hi ==> #[trigger] order.contains(position)
}

/// Whether `order` lists all positions of `keys`, each once, in stable sorted order.
pub open spec fn is_stable_order(keys: Seq<Seq<int>>, order: Seq<int>) -> bool {
    orders(keys, order, 0, keys.len() as int)
}

/// `order` with the position `last`, the largest so far, put behind all keys that are not
/// greater than its own.
pub open spec fn inserted(keys: Seq<Seq<int>>, order: Seq<int>, last: int) -> Seq<int>
    decreases order.len(),
{
    if order.len() == 0 || lex_le(keys[order.last()], keys[last]) {
        order.push(last)
    } else {
        inserted(keys, order.drop_last(), last).push(order.last())
    }
}

/// The stable sorted order of the first `count` positions.
pub open spec fn stable_order_of(keys: Seq<Seq<int>>, count: nat) -> Seq<int>
    decreases count,
{
    if count == 0 {
        seq![]
    } else {
        inserted(keys, stable_order_of(keys, (count - 1) as nat), count - 1)
    }
}

/// The stable sorted order of all positions of `keys`.
pub open spec fn stable_order(keys: Seq<Seq<int>>) -> Seq<int> {
    stable_order_of(keys, keys.len())
}

/// `items` rearranged so that the item at position `order[k]` comes to stand at `k`.
pub open spec fn arranged<T>(items: Seq<T>, order: Seq<int>) -> Seq<T> {
    Seq::new(order.len(), |k: int| items[order[k]])
}

/// `items` sorted by `keys`, where items of equal keys keep their order.
pub open spec fn sorted_by<T>(items: Seq<T>, keys: Seq<Seq<int>>) -> Seq<T> {
    arranged(items, stable_order(keys))
}

proof fn lemma_before_is_transitive(keys: Seq<Seq<int>>, a: int, b: int, c: int)
    requires
        comes_before(keys, a, b),
        comes_before(keys, b, c),
    ensures
        comes_before(keys, a, c),
{
    lemma_lex_transitive(keys[a], keys[b], keys[c]);
    if lex_le(keys[c], keys[a]) {
        lemma_lex_transitive(keys[b], keys[c], keys[a]);
        lemma_lex_transitive(keys[c], keys[a], keys[b]);
    }
}

proof fn lemma_inserted_orders(keys: Seq<Seq<int>>, order: Seq<int>, last: int)
    requires
        forall|k: int| 0 <= k < order.len() ==> #[trigger] order[k] < last,
        forall|i: int, j: int|
            0 <= i < j < order.len() ==> comes_before(
                keys,
                #[trigger] order[i],
                #[trigger] order[j],
            ),
    ensures
        ({
            let result = inserted(keys, order, last);
            &&& result.len() == order.len() + 1
            &&& result.contains(last)
            &&& forall|k: int| 0 <= k < order.len() ==> result.contains(#[trigger] order[k])
            &&& forall|k: int|
                0 <= k < result.len() ==> #[trigger] result[k] == last || order.contains(result[k])
            &&& forall|i: int, j: int|
                0 <= i < j < result.len() ==> comes_before(
                    keys,
                    #[trigger] result[i],
                    #[trigger] result[j],
                )
        }),
    decreases order.len(),
{
    let result = inserted(keys, order, last);
    if order.len() == 0 || lex_le(keys[order.last()], keys[last]) {
        assert(result[order.len() as int] == last);
        assert forall|k: int| 0 <= k < order.len() implies result.contains(#[trigger] order[k]) by {
            assert(result[k] == order[k]);
        }
        assert forall|i: int, j: int| 0 <= i < j < result.len() implies comes_before(
            keys,
            #[trigger] result[i],
            #[trigger] result[j],
        ) by {
            if j == order.len() {
                if i < order.len() - 1 {
                    assert(comes_before(keys, order[i], order[order.len() - 1]));
                    lemma_lex_transitive(keys[order[i]], keys[order.last()], keys[last]);
                }
            }
        }
    } else {
        let front = order.drop_last();
        let part = inserted(keys, front, last);
        lemma_inserted_orders(keys, front, last);
        lemma_lex_total(keys[order.last()], keys[last]);
        assert(result[part.len() as int] == order.last());
        let at = choose|at: int| 0 <= at < part.len() && part[at] == last;
        assert(result[at] == last);
        assert forall|k: int| 0 <= k < order.len() implies result.contains(#[trigger] order[k]) by {
            if k < front.len() {
                assert(front[k] == order[k]);
                let p = choose|p: int| 0 <= p < part.len() && part[p] == front[k];
                assert(result[p] == order[k]);
            }
        }
        assert forall|k: int| 0 <= k < result.len() implies #[trigger] result[k] == last
            || order.contains(result[k]) by {
            if k < part.len() {
                assert(part[k] == result[k]);
                if part[k] != last {
                    let p = choose|p: int| 0 <= p < front.len() && front[p] == part[k];
                    assert(order[p] == part[k]);
                }
            } else {
                assert(order[order.len() - 1] == result[k]);
            }
        }
        assert forall|i: int, j: int| 0 <= i < j < result.len() implies comes_before(
            keys,
            #[trigger] result[i],
            #[trigger] result[j],
        ) by {
            if j == part.len() {
                assert(part[i] == result[i]);
                if part[i] != last {
                    let p = choose|p: int| 0 <= p < front.len() && front[p] == part[i];
                    assert(comes_before(keys, order[p], order[order.len() - 1]));
                }
            } else {
                assert(part[i] == result[i] && part[j] == result[j]);
            }
        }
    }
}

proof fn lemma_stable_order_of(keys: Seq<Seq<int>>, count: nat)
    ensures
        orders(keys, stable_order_of(keys, count), 0, count as int),
    decreases count,
{
    if count > 0 {
        let before = stable_order_of(keys, (count - 1) as nat);
        let order = stable_order_of(keys, count);
        lemma_stable_order_of(keys, (count - 1) as nat);
        lemma_inserted_orders(keys, before, count - 1);
        assert forall|k: int| 0 <= k < order.len() implies 0 <= #[trigger] order[k] < count by {
            if order[k] != count - 1 {
                let p = choose|p: int| 0 <= p < before.len() && before[p] == order[k];
                assert(0 <= before[p] < count - 1);
            }
        }
        assert forall|position: int| 0 <= position < count implies #[trigger] order.contains(
            position,
        ) by {
            if position < count - 1 {
                assert(before.contains(position));
                let p = choose|p: int| 0 <= p < before.len() && before[p] == position;
                assert(order.contains(before[p]));
            }
        }
    }
}

/// The stable sorted order lists every position once, by key and then by position.
pub proof fn lemma_stable_order(keys: Seq<Seq<int>>)
    ensures
        is_stable_order(keys, stable_order(keys)),
{
    lemma_stable_order_of(keys, keys.len());
}

/// Arranging items in another order keeps all of them, each as often as before.
pub proof fn lemma_arranged_multiset<T>(items: Seq<T>, order: Seq<int>)
    requires
        order.len() == items.len(),
        forall|i: int| 0 <= i < order.len() ==> 0 <= #[trigger] order[i] < items.len(),
        forall|i: int, j: int|
            0 <= i < j < order.len() ==> #[trigger] order[i] != #[trigger] order[j],
        forall|p: int| 0 <= p < items.len() ==> #[trigger] order.contains(p),
    ensures
        arranged(items, order).to_multiset() == items.to_multiset(),
    decreases items.len(),
{
    let all = arranged(items, order);
    if items.len() == 0 {
        assert(all =~= items);
    } else {
        let last = items.len() - 1;
        let front = items.drop_last();
        assert(order.contains(last));
        let k = choose|k: int| 0 <= k < order.len() && order[k] == last;
        let rest = order.remove(k);
        assert forall|i: int| 0 <= i < rest.len() implies 0 <= #[trigger] rest[i] < front.len() by {
            let at = if i < k {
                i
            } else {
                i + 1
            };
            assert(rest[i] == order[at]);
            if at < k {
                assert(order[at] != order[k]);
            } else {
                assert(order[k] != order[at]);
            }
        }
        assert forall|i: int, j: int| 0 <= i < j < rest.len() implies #[trigger] rest[i]
            != #[trigger] rest[j] by {
            let a = if i < k {
                i
            } else {
                i + 1
            };
            let b = if j < k {
                j
            } else {
                j + 1
            };
            assert(order[a] != order[b]);
        }
        assert forall|p: int| 0 <= p < front.len() implies #[trigger] rest.contains(p) by {
            assert(order.contains(p));
            let at = choose|at: int| 0 <= at < order.len() && order[at] == p;
            if at < k {
                assert(rest[at] == p);
            } else {
                assert(rest[at - 1] == p);
            }
        }
        lemma_arranged_multiset(front, rest);
        assert(all.remove(k) =~= arranged(front, rest));
        vstd::seq_lib::to_multiset_remove(all, k);
        vstd::seq_lib::to_multiset_build(front, items.last());
        assert(front.push(items.last()) =~= items);
        assert(all[k] == items.last());
        assert(all.contains(all[k]));
        vstd::seq_lib::to_multiset_contains(all, all[k]);
        assert(all.to_multiset() =~= all.to_multiset().remove(all[k]).insert(all[k]));
    }
}

/// Sorting keeps all items, each as often as before.
pub proof fn lemma_sorted_multiset<T>(items: Seq<T>, keys: Seq<Seq<int>>)
    requires
        keys.len() == items.len(),
    ensures
        sorted_by(items, keys).to_multiset() == items.to_multiset(),
{
    let order = stable_order(keys);
    lemma_stable_order(keys);
    assert forall|i: int, j: int| 0 <= i < j < order.len() implies #[trigger] order[i]
        != #[trigger] order[j] by {
        assert(comes_before(keys, order[i], order[j]));
    }
    lemma_arranged_multiset(items, order);
}

/// There is only one stable sorted order.
pub proof fn lemma_stable_order_is_unique(keys: Seq<Seq<int>>, left: Seq<int>, right: Seq<int>)
    requires
        is_stable_order(keys, left),
        is_stable_order(keys, right),
    ensures
        left == right,
{
    assert forall|k: int| 0 <= k < left.len() implies left[k] == right[k] by {
        lemma_same_prefix(keys, left, right, k + 1);
        assert(left.take(k + 1)[k] == right.take(k + 1)[k]);
    }
    assert(left =~= right);
}

proof fn lemma_same_prefix(keys: Seq<Seq<int>>, left: Seq<int>, right: Seq<int>, count: int)
    requires
        is_stable_order(keys, left),
        is_stable_order(keys, right),
        0 <= count <= left.len(),
    ensures
        left.take(count) == right.take(count),
    decreases count,
{
    if count > 0 {
        let k = count - 1;
        lemma_same_prefix(keys, left, right, k);
        if left[k] != right[k] {
            lemma_not_ahead(keys, left, right, k);
            lemma_not_ahead(keys, right, left, k);
            assert(comes_before(keys, right[k], left[k]));
            assert(comes_before(keys, left[k], right[k]));
            assert(false);
        }
        assert forall|i: int| 0 <= i < count implies left.take(count)[i] == right.take(count)[i] by {
            if i < k {
                assert(left.take(k)[i] == right.take(k)[i]);
            }
        }
        assert(left.take(count) =~= right.take(count));
    } else {
        assert(left.take(0) =~= right.take(0));
    }
}

/// Where two orders agree up to `k`, what `left` has at `k` stands behind `right[k]` in `right`.
proof fn lemma_not_ahead(keys: Seq<Seq<int>>, left: Seq<int>, right: Seq<int>, k: int)
    requires
        is_stable_order(keys, left),
        is_stable_order(keys, right),
        0 <= k < left.len(),
        left.take(k) == right.take(k),
        left[k] != right[k],
    ensures
        comes_before(keys, right[k], left[k]),
{
    assert(right.contains(left[k]));
    let p = choose|p: int| 0 <= p < right.len() && right[p] == left[k];
    if p < k {
        assert(left[p] == left.take(k)[p]);
        assert(right[p] == right.take(k)[p]);
        assert(comes_before(keys, left[p], left[k]));
        assert(left[p] == left[k]);
    }
    assert(comes_before(keys, right[k], right[p]));
}

/// What can be sorted: it has a key and can be compared by it.
pub trait Sortable {
    spec fn key(&self) -> Seq<int>;

    fn at_most(&self, other: &Self) -> (answer: bool)
        ensures
            answer == lex_le(self.key(), other.key()),
    ;
}

/// The keys of `items`.
pub open spec fn keys_of<T: Sortable>(items: Seq<T>) -> Seq<Seq<int>> {
    Seq::new(items.len(), |i: int| items[i].key())
}

/// The positions in `order` as integers.
pub open spec fn positions(order: Seq<usize>) -> Seq<int> {
    Seq::new(order.len(), |i: int| order[i] as int)
}

/// Merges the orders of two neighbouring ranges of positions.
fn merge<T: Sortable>(
    items: &Vec<T>,
    left: Vec<usize>,
    right: Vec<usize>,
    Ghost(lo): Ghost<int>,
    Ghost(mid): Ghost<int>,
    Ghost(hi): Ghost<int>,
) -> (order: Vec<usize>)
    requires
        0 <= lo <= mid <= hi <= items@.len(),
        orders(keys_of(items@), positions(left@), lo, mid),
        orders(keys_of(items@), positions(right@), mid, hi),
    ensures
        orders(keys_of(items@), positions(order@), lo, hi),
{
    let ghost keys = keys_of(items@);
    let ghost ls = positions(left@);
    let ghost rs = positions(right@);
    let mut order: Vec<usize> = Vec::new();
    let mut i: usize = 0;
    let mut j: usize = 0;
    while i < left.len() || j < right.len()
        invariant
            0 <= lo <= mid <= hi <= items@.len(),
            keys == keys_of(items@),
            ls == positions(left@),
            rs == positions(right@),
            orders(keys, ls, lo, mid),
            orders(keys, rs, mid, hi),
            i <= left@.len(),
            j <= right@.len(),
            order@.len() == i + j,
            forall|k: int| 0 <= k < order@.len() ==> lo <= #[trigger] order@[k] < hi,
            forall|a: int, b: int|
                0 <= a < b < order@.len() ==> comes_before(
                    keys,
                    #[trigger] order@[a] as int,
                    #[trigger] order@[b] as int,
                ),
            forall|a: int, b: int|
                0 <= a < order@.len() && i <= b < ls.len() ==> comes_before(
                    keys,
                    #[trigger] order@[a] as int,
                    #[trigger] ls[b],
                ),
            forall|a: int, b: int|
                0 <= a < order@.len() && j <= b < rs.len() ==> comes_before(
                    keys,
                    #[trigger] order@[a] as int,
                    #[trigger] rs[b],
                ),
            forall|k: int| 0 <= k < i ==> order@.contains(#[trigger] left@[k]),
            forall|k: int| 0 <= k < j ==> order@.contains(#[trigger] right@[k]),
        decreases left@.len() - i + right@.len() - j,
    {
        let ghost before = order@;
        let take_left: bool = if i == left.len() {
            false
        } else if j == right.len() {
            true
        } else {
            proof {
                assert(lo <= ls[i as int] < mid);
                assert(mid <= rs[j as int] < hi);
                lemma_lex_total(keys[ls[i as int]], keys[rs[j as int]]);
            }
            items[left[i]].at_most(&items[right[j]])
        };
        let next: usize = if take_left {
            left[i]
        } else {
            right[j]
        };
        proof {
            if take_left {
                assert(ls[i as int] == next);
            } else {
                assert(rs[j as int] == next);
            }
            assert forall|b: int| (if take_left {
                i + 1
            } else {
                i as int
            }) <= b < ls.len() implies comes_before(keys, next as int, #[trigger] ls[b]) by {
                if !take_left {
                    assert(lo <= ls[b] < mid);
                    if b > i {
                        assert(comes_before(keys, ls[i as int], ls[b]));
                        lemma_before_is_transitive(keys, next as int, ls[i as int], ls[b]);
                    }
                }
            }
            assert forall|b: int| (if take_left {
                j as int
            } else {
                j + 1
            }) <= b < rs.len() implies comes_before(keys, next as int, #[trigger] rs[b]) by {
                if take_left {
                    assert(mid <= rs[b] < hi);
                    if b > j {
                        assert(comes_before(keys, rs[j as int], rs[b]));
                        lemma_before_is_transitive(keys, next as int, rs[j as int], rs[b]);
                    }
                }
            }
        }
        order.push(next);
        proof {
            assert(order@[before.len() as int] == next);
            assert forall|v: usize| before.contains(v) implies order@.contains(v) by {
                let p = choose|p: int| 0 <= p < before.len() && before[p] == v;
                assert(order@[p] == v);
            }
            assert(order@.contains(next));
        }
        if take_left {
            i = i + 1;
        } else {
            j = j + 1;
        }
    }
    proof {
        let result = positions(order@);
        assert forall|position: int| lo <= position < hi implies #[trigger] result.contains(
            position,
        ) by {
            if position < mid {
                assert(ls.contains(position));
                let k = choose|k: int| 0 <= k < ls.len() && ls[k] == position;
                assert(order@.contains(left@[k]));
                let p = choose|p: int| 0 <= p < order@.len() && order@[p] == left@[k];
                assert(result[p] == position);
            } else {
                assert(rs.contains(position));
                let k = choose|k: int| 0 <= k < rs.len() && rs[k] == position;
                assert(order@.contains(right@[k]));
                let p = choose|p: int| 0 <= p < order@.len() && order@[p] == right@[k];
                assert(result[p] == position);
            }
        }
    }
    order
}

fn sorted_range<T: Sortable>(items: &Vec<T>, lo: usize, hi: usize) -> (order: Vec<usize>)
    requires
        lo <= hi <= items@.len(),
    ensures
        orders(keys_of(items@), positions(order@), lo as int, hi as int),
    decreases hi - lo,
{
    if hi - lo == 0 {
        Vec::new()
    } else if hi - lo == 1 {
        let mut order: Vec<usize> = Vec::new();
        order.push(lo);
        assert(positions(order@)[0] == lo);
        order
    } else {
        let mid: usize = lo + (hi - lo) / 2;
        let left: Vec<usize> = sorted_range(items, lo, mid);
        let right: Vec<usize> = sorted_range(items, mid, hi);
        merge(items, left, right, Ghost(lo as int), Ghost(mid as int), Ghost(hi as int))
    }
}

/// The stable sorted order of the positions of `items`.
pub fn order_of<T: Sortable>(items: &Vec<T>) -> (order: Vec<usize>)
    ensures
        positions(order@) == stable_order(keys_of(items@)),
        order@.len() == items@.len(),
        forall|k: int| 0 <= k < order@.len() ==> #[trigger] order@[k] < items@.len(),
{
    let order: Vec<usize> = sorted_range(items, 0, items.len());
    proof {
        let keys = keys_of(items@);
        lemma_stable_order(keys);
        lemma_stable_order_is_unique(keys, positions(order@), stable_order(keys));
        assert forall|k: int| 0 <= k < order@.len() implies #[trigger] order@[k] < items@.len() by {
            assert(positions(order@)[k] < items@.len());
        }
    }
    order
}

/// The key of a text: the codes of its characters.
pub open spec fn text_key(text: Seq<char>) -> Seq<int> {
    Seq::new(text.len(), |i: int| text[i] as int)
}

impl Sortable for String {
    open spec fn key(&self) -> Seq<int> {
        text_key(self@)
    }

    fn at_most(&self, other: &Self) -> (answer: bool) {
        let left: Vec<char> = chars_of(self.as_str());
        let right: Vec<char> = chars_of(other.as_str());
        let ghost lk = text_key(self@);
        let ghost rk = text_key(other@);
        let mut i: usize = 0;
        assert(lk.skip(0) =~= lk);
        assert(rk.skip(0) =~= rk);
        while i < left.len() && i < right.len()
            invariant
                left@ == self@,
                right@ == other@,
                lk == text_key(self@),
                rk == text_key(other@),
                i <= left@.len(),
                i <= right@.len(),
                lex_le(lk, rk) == lex_le(lk.skip(i as int), rk.skip(i as int)),
            decreases left@.len() - i,
        {
            assert(lk.skip(i as int).drop_first() =~= lk.skip(i + 1));
            assert(rk.skip(i as int).drop_first() =~= rk.skip(i + 1));
            if left[i] < right[i] {
                return true;
            }
            if right[i] < left[i] {
                return false;
            }
            i = i + 1;
        }
        i == left.len()
    }
}

impl Sortable for F32 {
    open spec fn key(&self) -> Seq<int> {
        seq![self.total_key()]
    }

    fn at_most(&self, other: &Self) -> (answer: bool) {
        proof {
            assert(self.key().drop_first() =~= seq![]);
            reveal_with_fuel(lex_le, 2);
        }
        self.total_at_most(other)
    }
}

/// A place in a ranking: by a value in the total order of encodings, then by an identifier.
#[derive(Clone, Copy, Debug, PartialEq, Eq, Structural)]
pub struct RankKey {
    pub value: F32,
    pub id: u64,
}

/// The key of a ranked value.
pub open spec fn rank_key(value: F32, id: u64) -> Seq<int> {
    seq![value.total_key(), id as int]
}

impl Sortable for RankKey {
    open spec fn key(&self) -> Seq<int> {
        rank_key(self.value, self.id)
    }

    fn at_most(&self, other: &Self) -> (answer: bool) {
        proof {
            assert(self.key().drop_first() =~= seq![self.id as int]);
            assert(other.key().drop_first() =~= seq![other.id as int]);
            assert(self.key().drop_first().drop_first() =~= seq![]);
            reveal_with_fuel(lex_le, 3);
            crate::float_bits::lemma_total_order_is_injective(self.value, other.value);
        }
        if self.value.bits == other.value.bits {
            self.id <= other.id
        } else {
            self.value.total_at_most(&other.value)
        }
    }
}

/// The order of keys: one comes at or before another if it is the start of it, or is smaller at
/// the first place where they differ.
pub proof fn law_keys_are_ordered_by_their_first_difference(left: Seq<int>, right: Seq<int>, k: int)
    requires
        0 <= k <= left.len(),
        k <= right.len(),
        forall|i: int| 0 <= i < k ==> #[trigger] left[i] == right[i],
        k < left.len() && k < right.len() ==> left[k] != right[k],
    ensures
        lex_le(left, right) <==> k == left.len() || (k < right.len() && left[k] < right[k]),
    decreases k,
{
    if k > 0 {
        assert(left[0] == right[0]);
        let a = left.drop_first();
        let b = right.drop_first();
        assert forall|i: int| 0 <= i < k - 1 implies #[trigger] a[i] == b[i] by {
            assert(left[i + 1] == right[i + 1]);
        }
        law_keys_are_ordered_by_their_first_difference(a, b, k - 1);
    }
}

/// Sorting arranges all items, each once, by their keys, and items with the same key stay in the
/// order that they had.
pub proof fn law_sorting_is_stable<T>(items: Seq<T>, keys: Seq<Seq<int>>)
    requires
        keys.len() == items.len(),
    ensures
        sorted_by(items, keys).len() == items.len(),
        sorted_by(items, keys).to_multiset() == items.to_multiset(),
        forall|i: int|
            0 <= i < items.len() ==> 0 <= #[trigger] stable_order(keys)[i] < items.len()
                && sorted_by(items, keys)[i] == items[stable_order(keys)[i]],
        forall|i: int, j: int|
            0 <= i < j < items.len() ==> {
                let a = #[trigger] stable_order(keys)[i];
                let b = #[trigger] stable_order(keys)[j];
                lex_le(keys[a], keys[b]) && (lex_le(keys[b], keys[a]) ==> a < b)
            },
{
    lemma_stable_order(keys);
    lemma_sorted_multiset(items, keys);
}

/// A beatmap is ranked by its value in the total order first, and by its identifier only among
/// equal values.
pub proof fn law_ranks_compare_values_first(left: F32, id: u64, right: F32, other: u64)
    ensures
        lex_le(rank_key(left, id), rank_key(right, other)) <==> left.total_key()
            < right.total_key() || (left == right && id <= other),
{
    crate::float_bits::lemma_total_order_is_injective(left, right);
    let a = rank_key(left, id);
    let b = rank_key(right, other);
    assert(a.drop_first() =~= seq![id as int]);
    assert(b.drop_first() =~= seq![other as int]);
    reveal_with_fuel(lex_le, 3);
}

} // verus!
