//! Numbers in bytes.

use vstd::prelude::*;

verus! {

/// `value` in `count` bytes, the least significant one first.
pub open spec fn le_bytes(value: nat, count: nat) -> Seq<u8>
    decreases count,
{
    if count == 0 {
        seq![]
    } else {
        seq![(value % 256) as u8] + le_bytes(value / 256, (count - 1) as nat)
    }
}

/// `words` in four bytes each, one after another.
pub open spec fn words_bytes(words: Seq<u32>) -> Seq<u8>
    decreases words.len(),
{
    if words.len() == 0 {
        seq![]
    } else {
        words_bytes(words.drop_last()) + le_bytes(words.last() as nat, 4)
    }
}

/// `values` in bytes: how many there are, and those.
pub open spec fn list_bytes(values: Seq<u32>) -> Seq<u8> {
    le_bytes(values.len(), 8) + words_bytes(values)
}

/// `lists` in bytes, one after another.
pub open spec fn lists_bytes(lists: Seq<Seq<u32>>) -> Seq<u8>
    decreases lists.len(),
{
    if lists.len() == 0 {
        seq![]
    } else {
        list_bytes(lists[0]) + lists_bytes(lists.skip(1))
    }
}

/// Whether `bytes` start with `start`.
pub open spec fn begins_with(bytes: Seq<u8>, start: Seq<u8>) -> bool {
    start.len() <= bytes.len() && bytes.take(start.len() as int) == start
}

/// A number takes as many bytes as it is given.
pub proof fn lemma_le_bytes_length(value: nat, count: nat)
    ensures
        le_bytes(value, count).len() == count,
    decreases count,
{
    if count > 0 {
        lemma_le_bytes_length(value / 256, (count - 1) as nat);
    }
}

/// Numbers take four bytes each.
pub proof fn lemma_words_bytes_length(words: Seq<u32>)
    ensures
        words_bytes(words).len() == 4 * words.len(),
    decreases words.len(),
{
    if words.len() > 0 {
        lemma_words_bytes_length(words.drop_last());
        lemma_le_bytes_length(words.last() as nat, 4);
    }
}

/// The numbers that fit in `count` bytes.
pub open spec fn fits(value: nat, count: nat) -> bool
    decreases count,
{
    if count == 0 {
        value == 0
    } else {
        fits(value / 256, (count - 1) as nat)
    }
}

/// Different numbers that fit have different bytes.
pub proof fn lemma_le_bytes_injective(left: nat, right: nat, count: nat)
    requires
        fits(left, count),
        fits(right, count),
        le_bytes(left, count) == le_bytes(right, count),
    ensures
        left == right,
    decreases count,
{
    if count > 0 {
        let a = le_bytes(left, count);
        let b = le_bytes(right, count);
        assert(a[0] == b[0]);
        assert(a.drop_first() =~= le_bytes(left / 256, (count - 1) as nat));
        assert(b.drop_first() =~= le_bytes(right / 256, (count - 1) as nat));
        lemma_le_bytes_injective(left / 256, right / 256, (count - 1) as nat);
    }
}

/// As many different numbers have different bytes.
pub proof fn lemma_words_injective(left: Seq<u32>, right: Seq<u32>)
    requires
        left.len() == right.len(),
        words_bytes(left) == words_bytes(right),
    ensures
        left == right,
    decreases left.len(),
{
    if left.len() > 0 {
        let a = words_bytes(left);
        let b = words_bytes(right);
        let n = 4 * (left.len() - 1);
        lemma_words_bytes_length(left.drop_last());
        lemma_words_bytes_length(right.drop_last());
        lemma_le_bytes_length(left.last() as nat, 4);
        lemma_le_bytes_length(right.last() as nat, 4);
        assert(a.take(n) =~= words_bytes(left.drop_last()));
        assert(b.take(n) =~= words_bytes(right.drop_last()));
        assert(a.skip(n) =~= le_bytes(left.last() as nat, 4));
        assert(b.skip(n) =~= le_bytes(right.last() as nat, 4));
        reveal_with_fuel(fits, 5);
        lemma_le_bytes_injective(left.last() as nat, right.last() as nat, 4);
        lemma_words_injective(left.drop_last(), right.drop_last());
        assert(left =~= left.drop_last().push(left.last()));
        assert(right =~= right.drop_last().push(right.last()));
    } else {
        assert(left =~= right);
    }
}

// What comes first

/// Bytes that start with a number start with no other.
pub proof fn lemma_number_first(left: nat, right: nat, count: nat, rest: Seq<u8>, other: Seq<u8>)
    requires
        fits(left, count),
        fits(right, count),
        le_bytes(left, count) + rest == le_bytes(right, count) + other,
    ensures
        left == right,
        rest == other,
{
    lemma_le_bytes_length(left, count);
    lemma_le_bytes_length(right, count);
    let a = le_bytes(left, count);
    let b = le_bytes(right, count);
    assert(a =~= (a + rest).take(count as int));
    assert(b =~= (b + other).take(count as int));
    assert(rest =~= (a + rest).skip(count as int));
    assert(other =~= (b + other).skip(count as int));
    lemma_le_bytes_injective(left, right, count);
}

/// A number of 32 bits fits in four bytes.
pub proof fn lemma_fits_word(value: nat)
    requires
        value <= u32::MAX,
    ensures
        fits(value, 4),
{
    reveal_with_fuel(fits, 5);
}

/// A number of 64 bits fits in eight bytes.
pub proof fn lemma_fits_long(value: nat)
    requires
        value <= u64::MAX,
    ensures
        fits(value, 8),
{
    reveal_with_fuel(fits, 9);
}

/// Bytes that start with so many numbers start with no others.
pub proof fn lemma_words_first(left: Seq<u32>, right: Seq<u32>, rest: Seq<u8>, other: Seq<u8>)
    requires
        left.len() == right.len(),
        words_bytes(left) + rest == words_bytes(right) + other,
    ensures
        left == right,
        rest == other,
{
    lemma_words_bytes_length(left);
    lemma_words_bytes_length(right);
    let a = words_bytes(left);
    let b = words_bytes(right);
    let n = 4 * left.len();
    assert(a =~= (a + rest).take(n as int));
    assert(b =~= (b + other).take(n as int));
    assert(rest =~= (a + rest).skip(n as int));
    assert(other =~= (b + other).skip(n as int));
    lemma_words_injective(left, right);
}

/// Bytes that start with a list start with no other.
pub proof fn lemma_list_first(left: Seq<u32>, right: Seq<u32>, rest: Seq<u8>, other: Seq<u8>)
    requires
        left.len() <= u64::MAX,
        right.len() <= u64::MAX,
        list_bytes(left) + rest == list_bytes(right) + other,
    ensures
        left == right,
        rest == other,
{
    let a1 = le_bytes(left.len(), 8);
    let b1 = le_bytes(right.len(), 8);
    let a2 = words_bytes(left) + rest;
    let b2 = words_bytes(right) + other;
    assert(list_bytes(left) + rest =~= a1 + a2);
    assert(list_bytes(right) + other =~= b1 + b2);
    lemma_fits_long(left.len());
    lemma_fits_long(right.len());
    lemma_number_first(left.len(), right.len(), 8, a2, b2);
    lemma_words_first(left, right, rest, other);
}

/// Whether the lengths of the lists can be written down.
pub open spec fn countable_lists(lists: Seq<Seq<u32>>) -> bool {
    forall|i: int| 0 <= i < lists.len() ==> (#[trigger] lists[i]).len() <= u64::MAX
}

/// Bytes that start with so many lists start with no others.
pub proof fn lemma_lists_first(
    left: Seq<Seq<u32>>,
    right: Seq<Seq<u32>>,
    rest: Seq<u8>,
    other: Seq<u8>,
)
    requires
        left.len() == right.len(),
        countable_lists(left),
        countable_lists(right),
        lists_bytes(left) + rest == lists_bytes(right) + other,
    ensures
        left == right,
        rest == other,
    decreases left.len(),
{
    if left.len() == 0 {
        assert(left =~= right);
        assert(lists_bytes(left) + rest =~= rest);
        assert(lists_bytes(right) + other =~= other);
    } else {
        let a = lists_bytes(left.skip(1));
        let b = lists_bytes(right.skip(1));
        assert(lists_bytes(left) + rest =~= list_bytes(left[0]) + (a + rest));
        assert(lists_bytes(right) + other =~= list_bytes(right[0]) + (b + other));
        assert(left[0].len() <= u64::MAX && right[0].len() <= u64::MAX);
        lemma_list_first(left[0], right[0], a + rest, b + other);
        lemma_lists_first(left.skip(1), right.skip(1), rest, other);
        assert forall|i: int| 0 <= i < left.len() implies left[i] == right[i] by {
            if i > 0 {
                assert(left.skip(1)[i - 1] == right.skip(1)[i - 1]);
            }
        }
        assert(left =~= right);
    }
}

/// Parts may be joined in any grouping.
pub proof fn lemma_regrouped(a: Seq<u8>, b: Seq<u8>, c: Seq<u8>, d: Seq<u8>, rest: Seq<u8>)
    ensures
        (a + b + c + d) + rest == a + (b + (c + (d + rest))),
{
    assert((a + b + c + d) + rest =~= a + (b + (c + (d + rest))));
}

/// Bytes are their start and the rest.
pub proof fn lemma_start_and_rest(bytes: Seq<u8>, start: Seq<u8>)
    requires
        begins_with(bytes, start),
    ensures
        start + bytes.skip(start.len() as int) == bytes,
{
    assert(start + bytes.skip(start.len() as int) =~= bytes);
}

} // verus!
