//! The normalizer of the osu!mania dataset.
//!
//! Records are ranked among the records of the same key count. Records with equal values share
//! the middle of the positions that these values take. Ranks are kept as fractions of
//! positions; dividing them is left to whoever works with floats.

use std::collections::BTreeMap;

use vstd::prelude::*;

use crate::float_bits::F32;
use crate::mania::{
    ManiaDifficultyVector, ManiaFeatureRecord, ManiaRawFeatureRecord, MANIA_ANALYZER_VERSION,
};
use crate::ordered::keys64;
use crate::sorting::order_of;
use crate::text::{push_decimal, push_text, string_of};

verus! {

broadcast use vstd::std_specs::btree::group_btree_axioms;

/// The sorted values of one cohort, those of each axis and the overall intensities.
pub struct KeyNormalizer {
    pub key_count: u8,
    pub axes: [Vec<F32>; 8],
    pub overall: Vec<F32>,
}

pub struct ManiaNormalizer {
    pub version: u32,
    pub analyzer_version: u32,
    pub keys: Vec<KeyNormalizer>,
}

#[derive(Clone, Copy, Debug, PartialEq, Eq, Structural)]
pub enum ManiaNormalizerError {
    ZeroVersion,
    NoRecords,
    RecordVersion,
    Range,
    NoCohort { key_count: u8 },
    StoredVersion,
}

impl ManiaNormalizerError {
    pub open spec fn text(self) -> Seq<char> {
        match self {
            ManiaNormalizerError::ZeroVersion => "mania normalization version must be positive"@,
            ManiaNormalizerError::NoRecords =>
                "cannot fit a mania normalizer without raw records"@,
            ManiaNormalizerError::RecordVersion =>
                "mania raw feature version does not match the normalizer"@,
            ManiaNormalizerError::Range => "mania raw feature is outside its declared range"@,
            ManiaNormalizerError::NoCohort { key_count } => "normalizer has no "@
                + crate::text::decimal(key_count as nat) + "K cohort"@,
            ManiaNormalizerError::StoredVersion =>
                "mania normalizer version does not match the active analyzer"@,
        }
    }

    /// The error in words.
    pub fn message(&self) -> (message: String)
        ensures
            message@ == self.text(),
    {
        let mut text: Vec<char> = Vec::new();
        match self {
            ManiaNormalizerError::ZeroVersion => push_text(
                &mut text,
                "mania normalization version must be positive",
            ),
            ManiaNormalizerError::NoRecords => push_text(
                &mut text,
                "cannot fit a mania normalizer without raw records",
            ),
            ManiaNormalizerError::RecordVersion => push_text(
                &mut text,
                "mania raw feature version does not match the normalizer",
            ),
            ManiaNormalizerError::Range => push_text(
                &mut text,
                "mania raw feature is outside its declared range",
            ),
            ManiaNormalizerError::NoCohort { key_count } => {
                push_text(&mut text, "normalizer has no ");
                push_decimal(&mut text, *key_count as u64);
                push_text(&mut text, "K cohort");
            },
            ManiaNormalizerError::StoredVersion => push_text(
                &mut text,
                "mania normalizer version does not match the active analyzer",
            ),
        }
        assert(text@ =~= self.text());
        string_of(text.as_slice())
    }
}

/// `values` in the total order of encodings.
pub open spec fn in_order(values: Seq<F32>) -> Seq<F32> {
    crate::sorting::sorted_by(values, crate::sorting::keys_of(values))
}

/// Whether `values` are in the total order of encodings.
pub open spec fn is_ordered(values: Seq<F32>) -> bool {
    forall|i: int, j: int|
        0 <= i < j < values.len() ==> (#[trigger] values[i]).total_key() <= (
        #[trigger] values[j]).total_key()
}

/// `values` in the total order of encodings.
pub fn sorted_values(values: &Vec<F32>) -> (sorted: Vec<F32>)
    ensures
        sorted@ == in_order(values@),
        is_ordered(sorted@),
        sorted@.len() == values@.len(),
{
    let order: Vec<usize> = order_of(values);
    let mut sorted: Vec<F32> = Vec::new();
    let mut i: usize = 0;
    while i < order.len()
        invariant
            i <= order@.len(),
            forall|k: int| 0 <= k < order@.len() ==> #[trigger] order@[k] < values@.len(),
            sorted@.len() == i,
            forall|k: int| 0 <= k < i ==> sorted@[k] == values@[order@[k] as int],
        decreases order@.len() - i,
    {
        sorted.push(values[order[i]]);
        i = i + 1;
    }
    proof {
        let keys = crate::sorting::keys_of(values@);
        let stable = crate::sorting::stable_order(keys);
        assert(stable.len() == order@.len());
        assert forall|k: int| 0 <= k < order@.len() implies stable[k] == order@[k] by {
            assert(stable[k] == crate::sorting::positions(order@)[k]);
        }
        assert(sorted@ =~= in_order(values@));
        lemma_in_order_is_ordered(values@);
    }
    sorted
}

/// Sorting puts values in order.
pub proof fn lemma_in_order_is_ordered(values: Seq<F32>)
    ensures
        is_ordered(in_order(values)),
        in_order(values).len() == values.len(),
{
    let keys = crate::sorting::keys_of(values);
    let stable = crate::sorting::stable_order(keys);
    crate::sorting::lemma_stable_order(keys);
    assert forall|i: int, j: int| 0 <= i < j < stable.len() implies (
    #[trigger] in_order(values)[i]).total_key() <= (#[trigger] in_order(
        values,
    )[j]).total_key() by {
        assert(crate::sorting::comes_before(keys, stable[i], stable[j]));
        assert(0 <= stable[i] < values.len() && 0 <= stable[j] < values.len());
        assert(keys[stable[i]] == seq![values[stable[i]].total_key()]);
        assert(keys[stable[j]] == seq![values[stable[j]].total_key()]);
        assert(keys[stable[i]].drop_first() =~= seq![]);
        reveal_with_fuel(crate::sorting::lex_le, 2);
    }
}

/// A middle rank: twice a position, and twice the last position. A cohort of at most one record
/// ranks everything in the middle.
#[derive(Clone, Copy, Debug, PartialEq, Eq, Structural)]
pub struct Midrank {
    pub twice_position: u128,
    pub twice_last: u128,
}

/// How many of the first `count` values come before `value` in the total order.
pub open spec fn count_before(values: Seq<F32>, value: F32, count: nat) -> nat
    decreases count,
{
    if count == 0 {
        0
    } else {
        count_before(values, value, (count - 1) as nat) + if values[count - 1].total_key()
            < value.total_key() {
            1nat
        } else {
            0nat
        }
    }
}

/// How many of the first `count` values come before `value` in the total order or are equal.
pub open spec fn count_up_to(values: Seq<F32>, value: F32, count: nat) -> nat
    decreases count,
{
    if count == 0 {
        0
    } else {
        count_up_to(values, value, (count - 1) as nat) + if values[count - 1].total_key()
            <= value.total_key() {
            1nat
        } else {
            0nat
        }
    }
}

impl Midrank {
    /// Whether the position is one of those from the first to the last.
    pub open spec fn is_fraction(self) -> bool {
        0 < self.twice_last && self.twice_position <= self.twice_last
    }
}

/// The middle of the positions that `value` takes among `values`, or the position that it would
/// take, but never one behind the last. Of two or more values the positions run from zero; a
/// single one is all middle.
pub open spec fn midrank_of(values: Seq<F32>, value: F32) -> Midrank {
    let lower = count_before(values, value, values.len());
    let upper = count_up_to(values, value, values.len());
    let twice_position = if upper > lower {
        lower + upper - 1
    } else {
        lower + lower as int
    };
    let twice_last = 2 * (values.len() - 1);
    if values.len() <= 1 {
        Midrank { twice_position: 1, twice_last: 2 }
    } else if twice_position <= twice_last {
        Midrank { twice_position: twice_position as u128, twice_last: twice_last as u128 }
    } else {
        Midrank { twice_position: twice_last as u128, twice_last: twice_last as u128 }
    }
}

proof fn lemma_counts_split(values: Seq<F32>, value: F32, lower: int, upper: int, count: nat)
    requires
        0 <= lower <= upper <= values.len(),
        count <= values.len(),
        forall|i: int|
            0 <= i < lower ==> (#[trigger] values[i]).total_key() < value.total_key(),
        forall|i: int|
            lower <= i < values.len() ==> (#[trigger] values[i]).total_key() >= value.total_key(),
        forall|i: int|
            0 <= i < upper ==> (#[trigger] values[i]).total_key() <= value.total_key(),
        forall|i: int|
            upper <= i < values.len() ==> (#[trigger] values[i]).total_key() > value.total_key(),
    ensures
        count_before(values, value, count) == if count <= lower {
            count as int
        } else {
            lower
        },
        count_up_to(values, value, count) == if count <= upper {
            count as int
        } else {
            upper
        },
    decreases count,
{
    if count > 0 {
        lemma_counts_split(values, value, lower, upper, (count - 1) as nat);
    }
}

/// Among sorted values, the first position whose value comes behind `value`, or, if `strictly`
/// is not asked for, is equal to it. Among others it is some position.
fn boundary(values: &Vec<F32>, value: F32, strictly: bool) -> (at: usize)
    ensures
        at <= values@.len(),
        is_ordered(values@) ==> forall|i: int|
            0 <= i < at ==> (strictly && (#[trigger] values@[i]).total_key() <= value.total_key())
                || values@[i].total_key() < value.total_key(),
        is_ordered(values@) ==> forall|i: int|
            at <= i < values@.len() ==> (!strictly && (#[trigger] values@[i]).total_key()
                >= value.total_key()) || values@[i].total_key() > value.total_key(),
{
    let mut low: usize = 0;
    let mut high: usize = values.len();
    while low < high
        invariant
            low <= high <= values@.len(),
            is_ordered(values@) ==> forall|i: int|
                0 <= i < low ==> (strictly && (#[trigger] values@[i]).total_key()
                    <= value.total_key()) || values@[i].total_key() < value.total_key(),
            is_ordered(values@) ==> forall|i: int|
                high <= i < values@.len() ==> (!strictly && (#[trigger] values@[i]).total_key()
                    >= value.total_key()) || values@[i].total_key() > value.total_key(),
        decreases high - low,
    {
        let middle: usize = low + (high - low) / 2;
        let before: bool = if strictly {
            values[middle].total_at_most(&value)
        } else {
            !value.total_at_most(&values[middle])
        };
        if before {
            assert forall|i: int| is_ordered(values@) && 0 <= i < middle + 1 implies (strictly && (
            #[trigger] values@[i]).total_key() <= value.total_key()) || values@[i].total_key()
                < value.total_key() by {
                if i < middle {
                    assert(values@[i].total_key() <= values@[middle as int].total_key());
                }
            }
            low = middle + 1;
        } else {
            assert forall|i: int|
                is_ordered(values@) && middle <= i < values@.len() implies (!strictly && (
            #[trigger] values@[i]).total_key() >= value.total_key()) || values@[i].total_key()
                > value.total_key() by {
                if i > middle {
                    assert(values@[middle as int].total_key() <= values@[i].total_key());
                }
            }
            high = middle;
        }
    }
    low
}

/// The middle rank of `value` among sorted values. Among others it is some rank.
pub fn midrank(sorted: &Vec<F32>, value: F32) -> (rank: Midrank)
    ensures
        is_ordered(sorted@) ==> rank == midrank_of(sorted@, value),
        rank.is_fraction(),
        rank.twice_last == if sorted@.len() <= 1 {
            2
        } else {
            2 * (sorted@.len() - 1)
        },
{
    if sorted.len() <= 1 {
        return Midrank { twice_position: 1, twice_last: 2 };
    }
    let lower: usize = boundary(sorted, value, false);
    let upper: usize = boundary(sorted, value, true);
    proof {
        if is_ordered(sorted@) {
            if upper < lower {
                assert(sorted@[upper as int].total_key() < value.total_key());
            }
            lemma_counts_split(sorted@, value, lower as int, upper as int, sorted@.len());
        }
    }
    let twice_position: u128 = if upper > lower {
        lower as u128 + upper as u128 - 1
    } else {
        2 * (lower as u128)
    };
    let twice_last: u128 = 2 * (sorted.len() as u128 - 1);
    if twice_position <= twice_last {
        Midrank { twice_position, twice_last }
    } else {
        Midrank { twice_position: twice_last, twice_last }
    }
}

/// No value ranks behind the last position, whether it is in the cohort or not.
pub proof fn law_midranks_are_fractions(values: Seq<F32>, value: F32)
    requires
        values.len() <= usize::MAX,
    ensures
        midrank_of(values, value).is_fraction(),
{
    lemma_counts_bounds(values, value, values.len());
}

/// A value that comes behind every one of two or more values ranks last, and one that comes
/// before every one of them ranks first.
pub proof fn law_midranks_of_outsiders(values: Seq<F32>, value: F32)
    requires
        1 < values.len() <= usize::MAX,
    ensures
        (forall|i: int|
            0 <= i < values.len() ==> (#[trigger] values[i]).total_key() < value.total_key())
            ==> midrank_of(values, value).twice_position == midrank_of(values, value).twice_last,
        (forall|i: int|
            0 <= i < values.len() ==> (#[trigger] values[i]).total_key() > value.total_key())
            ==> midrank_of(values, value).twice_position == 0,
{
    let count = values.len() as int;
    if forall|i: int|
        0 <= i < values.len() ==> (#[trigger] values[i]).total_key() < value.total_key() {
        lemma_counts_split(values, value, count, count, values.len());
    }
    if forall|i: int|
        0 <= i < values.len() ==> (#[trigger] values[i]).total_key() > value.total_key() {
        lemma_counts_split(values, value, 0, 0, values.len());
    }
}

proof fn lemma_counts_bounds(values: Seq<F32>, value: F32, count: nat)
    ensures
        count_before(values, value, count) <= count_up_to(values, value, count) <= count,
    decreases count,
{
    if count > 0 {
        lemma_counts_bounds(values, value, (count - 1) as nat);
    }
}

/// A value that comes later in the total order never ranks lower.
pub proof fn law_midranks_are_monotone(values: Seq<F32>, low: F32, high: F32)
    requires
        low.total_key() <= high.total_key(),
        values.len() <= usize::MAX,
    ensures
        midrank_of(values, low).twice_position <= midrank_of(values, high).twice_position,
{
    lemma_counts_monotone(values, low, high, values.len());
    lemma_counts_bounds(values, low, values.len());
    lemma_counts_bounds(values, high, values.len());
}

proof fn lemma_counts_monotone(values: Seq<F32>, low: F32, high: F32, count: nat)
    requires
        low.total_key() <= high.total_key(),
    ensures
        count_before(values, low, count) <= count_before(values, high, count),
        count_up_to(values, low, count) <= count_up_to(values, high, count),
        low.total_key() < high.total_key() ==> count_up_to(values, low, count) <= count_before(
            values,
            high,
            count,
        ),
        low.total_key() == high.total_key() ==> count_before(values, low, count) == count_before(
            values,
            high,
            count,
        ) && count_up_to(values, low, count) == count_up_to(values, high, count),
    decreases count,
{
    if count > 0 {
        lemma_counts_monotone(values, low, high, (count - 1) as nat);
    }
}

// Cohorts

/// The records of one key count, in order.
pub open spec fn cohort(
    records: Seq<ManiaRawFeatureRecord>,
    key_count: u8,
) -> Seq<ManiaRawFeatureRecord>
    decreases records.len(),
{
    if records.len() == 0 {
        records
    } else {
        let front = cohort(records.drop_last(), key_count);
        if records.last().key_count == key_count {
            front.push(records.last())
        } else {
            front
        }
    }
}

/// The values of one axis, in the order of the records.
pub open spec fn axis(records: Seq<ManiaRawFeatureRecord>, index: int) -> Seq<F32> {
    Seq::new(records.len(), |i: int| records[i].difficulty.axes()[index])
}

/// The intensities of the records of one key count, in order.
pub open spec fn cohort_intensities(
    records: Seq<ManiaRawFeatureRecord>,
    intensities: Seq<F32>,
    key_count: u8,
) -> Seq<F32>
    decreases records.len(),
{
    if records.len() == 0 || intensities.len() != records.len() {
        Seq::empty()
    } else {
        let front = cohort_intensities(records.drop_last(), intensities.drop_last(), key_count);
        if records.last().key_count == key_count {
            front.push(intensities.last())
        } else {
            front
        }
    }
}

/// Whether `keys` has the sorted overall intensities of every one of its cohorts, where
/// `intensities` are those of the records, in order.
pub open spec fn fits_overall(
    records: Seq<ManiaRawFeatureRecord>,
    intensities: Seq<F32>,
    keys: Seq<KeyNormalizer>,
) -> bool {
    forall|i: int|
        0 <= i < keys.len() ==> (#[trigger] keys[i]).overall@ == in_order(
            cohort_intensities(records, intensities, keys[i].key_count),
        )
}

/// Whether `normalizer` is the one that `records` and their intensities give under `version`.
pub open spec fn is_fitted(
    normalizer: ManiaNormalizer,
    records: Seq<ManiaRawFeatureRecord>,
    intensities: Seq<F32>,
    version: u32,
) -> bool {
    &&& normalizer.version == version
    &&& normalizer.analyzer_version == MANIA_ANALYZER_VERSION
    &&& fits_axes(records, normalizer.keys@)
    &&& fits_overall(records, intensities, normalizer.keys@)
}

/// Whether `keys` has the sorted axes of every cohort of `records`, by increasing key count.
pub open spec fn fits_axes(
    records: Seq<ManiaRawFeatureRecord>,
    keys: Seq<KeyNormalizer>,
) -> bool {
    &&& forall|i: int, j: int|
        0 <= i < j < keys.len() ==> (#[trigger] keys[i]).key_count < (#[trigger] keys[j]).key_count
    &&& forall|i: int|
        0 <= i < keys.len() ==> cohort(records, (#[trigger] keys[i]).key_count).len() > 0
    &&& forall|i: int, d: int|
        0 <= i < keys.len() && 0 <= d < 8 ==> (#[trigger] keys[i].axes@[d])@ == in_order(
            axis(cohort(records, keys[i].key_count), d),
        )
    &&& forall|r: int|
        0 <= r < records.len() ==> has_cohort(keys, (#[trigger] records[r]).key_count)
}

/// Whether there is a cohort of the given key count.
pub open spec fn has_cohort(keys: Seq<KeyNormalizer>, key_count: u8) -> bool {
    exists|i: int| 0 <= i < keys.len() && (#[trigger] keys[i]).key_count == key_count
}

/// The intensities of the records of one key count.
fn intensities_of(
    records: &Vec<ManiaRawFeatureRecord>,
    intensities: &Vec<F32>,
    key_count: u8,
) -> (values: Vec<F32>)
    requires
        records@.len() == intensities@.len(),
    ensures
        values@ == cohort_intensities(records@, intensities@, key_count),
{
    let mut values: Vec<F32> = Vec::new();
    let mut i: usize = 0;
    while i < records.len()
        invariant
            i <= records@.len(),
            records@.len() == intensities@.len(),
            values@ == cohort_intensities(
                records@.take(i as int),
                intensities@.take(i as int),
                key_count,
            ),
        decreases records@.len() - i,
    {
        proof {
            assert(records@.take(i + 1).drop_last() =~= records@.take(i as int));
            assert(intensities@.take(i + 1).drop_last() =~= intensities@.take(i as int));
        }
        if records[i].key_count == key_count {
            values.push(intensities[i]);
        }
        i = i + 1;
    }
    assert(records@.take(i as int) =~= records@);
    assert(intensities@.take(i as int) =~= intensities@);
    values
}

fn axis_of(records: &Vec<ManiaRawFeatureRecord>, index: usize) -> (values: Vec<F32>)
    requires
        index < 8,
    ensures
        values@ == axis(records@, index as int),
{
    let mut values: Vec<F32> = Vec::new();
    let mut i: usize = 0;
    while i < records.len()
        invariant
            i <= records@.len(),
            index < 8,
            values@.len() == i,
            forall|k: int|
                0 <= k < i ==> values@[k] == records@[k].difficulty.axes()[index as int],
        decreases records@.len() - i,
    {
        let axes: [F32; 8] = records[i].difficulty.as_array();
        values.push(axes[index]);
        i = i + 1;
    }
    assert(values@ =~= axis(records@, index as int));
    values
}

/// The records by key count.
fn cohorts_of(records: &Vec<ManiaRawFeatureRecord>) -> (cohorts: BTreeMap<
    u64,
    Vec<ManiaRawFeatureRecord>,
>)
    ensures
        forall|code: u64| #[trigger] cohorts@.contains_key(code) ==> code < 256,
        forall|key_count: u8|
            {
                let members = #[trigger] cohort(records@, key_count);
                let code = key_count as u64;
                &&& cohorts@.contains_key(code) == (members.len() > 0)
                &&& cohorts@.contains_key(code) ==> cohorts@[code]@ == members
            },
{
    let mut cohorts: BTreeMap<u64, Vec<ManiaRawFeatureRecord>> = BTreeMap::new();
    let mut i: usize = 0;
    assert(records@.take(0) =~= seq![]);
    while i < records.len()
        invariant
            i <= records@.len(),
            forall|code: u64| #[trigger] cohorts@.contains_key(code) ==> code < 256,
            forall|key_count: u8|
                {
                    let members = #[trigger] cohort(records@.take(i as int), key_count);
                    let code = key_count as u64;
                    &&& cohorts@.contains_key(code) == (members.len() > 0)
                    &&& cohorts@.contains_key(code) ==> cohorts@[code]@ == members
                },
        decreases records@.len() - i,
    {
        let record: ManiaRawFeatureRecord = records[i];
        let code: u64 = record.key_count as u64;
        let ghost before = cohorts@;
        let mut members: Vec<ManiaRawFeatureRecord> = match cohorts.remove(&code) {
            Some(members) => members,
            None => Vec::new(),
        };
        members.push(record);
        cohorts.insert(code, members);
        proof {
            let earlier = records@.take(i as int);
            let now = records@.take(i + 1);
            assert(now.drop_last() =~= earlier);
            assert forall|key_count: u8|
                {
                    let all = #[trigger] cohort(now, key_count);
                    let place = key_count as u64;
                    &&& cohorts@.contains_key(place) == (all.len() > 0)
                    &&& cohorts@.contains_key(place) ==> cohorts@[place]@ == all
                } by {
                let seen = cohort(earlier, key_count);
                let place = key_count as u64;
                assert(before.contains_key(place) == (seen.len() > 0));
                if place == code {
                    if seen.len() == 0 {
                        assert(seen =~= seq![]);
                    }
                    assert(cohorts@[place]@ == seen.push(record));
                } else {
                    assert(cohorts@.contains_key(place) == before.contains_key(place));
                }
            }
        }
        i = i + 1;
    }
    assert(records@.take(records@.len() as int) =~= records@);
    cohorts
}

proof fn lemma_cohort_contains(records: Seq<ManiaRawFeatureRecord>, r: int)
    requires
        0 <= r < records.len(),
    ensures
        cohort(records, records[r].key_count).len() > 0,
    decreases records.len(),
{
    if r < records.len() - 1 {
        assert(records.drop_last()[r] == records[r]);
        lemma_cohort_contains(records.drop_last(), r);
    }
}

/// Why a raw record cannot be normalized, whatever its cohort.
pub open spec fn record_refusal(raw: ManiaRawFeatureRecord) -> Option<ManiaNormalizerError> {
    if raw.analyzer_version != MANIA_ANALYZER_VERSION {
        Some(ManiaNormalizerError::RecordVersion)
    } else if !in_range(raw) {
        Some(ManiaNormalizerError::Range)
    } else {
        None
    }
}

/// Why the first of `records`, from `from` on, that cannot be normalized cannot.
pub open spec fn first_refusal(records: Seq<ManiaRawFeatureRecord>, from: int) -> Option<
    ManiaNormalizerError,
>
    decreases records.len() - from,
{
    if from < 0 || from >= records.len() {
        None
    } else if record_refusal(records[from]) is Some {
        record_refusal(records[from])
    } else {
        first_refusal(records, from + 1)
    }
}

/// Why no normalizer can be fitted.
pub open spec fn fit_refusal(records: Seq<ManiaRawFeatureRecord>, version: u32) -> Option<
    ManiaNormalizerError,
> {
    if version == 0 {
        Some(ManiaNormalizerError::ZeroVersion)
    } else if records.len() == 0 {
        Some(ManiaNormalizerError::NoRecords)
    } else {
        first_refusal(records, 0)
    }
}

/// Checks that every record can be normalized.
fn check_records(records: &Vec<ManiaRawFeatureRecord>) -> (outcome: Result<
    (),
    ManiaNormalizerError,
>)
    ensures
        match outcome {
            Ok(_) => first_refusal(records@, 0) is None && forall|r: int|
                0 <= r < records@.len() ==> record_refusal(#[trigger] records@[r]) is None,
            Err(error) => first_refusal(records@, 0) == Some(error),
        },
{
    let mut i: usize = 0;
    while i < records.len()
        invariant
            i <= records@.len(),
            first_refusal(records@, 0) == first_refusal(records@, i as int),
            forall|r: int| 0 <= r < i ==> record_refusal(#[trigger] records@[r]) is None,
        decreases records@.len() - i,
    {
        if records[i].analyzer_version != MANIA_ANALYZER_VERSION {
            return Err(ManiaNormalizerError::RecordVersion);
        }
        if !range_holds(&records[i]) {
            return Err(ManiaNormalizerError::Range);
        }
        i = i + 1;
    }
    Ok(())
}

proof fn lemma_first_cohort_found(keys: Seq<KeyNormalizer>, key_count: u8, from: int)
    requires
        0 <= from,
        exists|i: int| from <= i < keys.len() && (#[trigger] keys[i]).key_count == key_count,
    ensures
        first_cohort(keys, key_count, from) is Some,
    decreases keys.len() - from,
{
    if keys[from].key_count != key_count {
        lemma_first_cohort_found(keys, key_count, from + 1);
    }
}

/// The cohorts of raw records with their sorted axes, by increasing key count. The overall
/// intensities, which follow from the ranks on these axes, are still missing; `set_intensities`
/// takes them over. A record that the fitted normalizer could not transform is refused.
pub fn fit_mania_normalizer(records: &Vec<ManiaRawFeatureRecord>, version: u32) -> (outcome:
    Result<ManiaNormalizer, ManiaNormalizerError>)
    ensures
        match fit_refusal(records@, version) {
            Some(error) => outcome matches Err(reported) && reported == error,
            None => {
                &&& outcome matches Ok(normalizer)
                &&& normalizer.version == version
                &&& normalizer.analyzer_version == MANIA_ANALYZER_VERSION
                &&& fits_axes(records@, normalizer.keys@)
                &&& forall|i: int|
                    0 <= i < normalizer.keys@.len() ==> (
                    #[trigger] normalizer.keys@[i]).overall@.len() == 0
                &&& forall|r: int|
                    0 <= r < records@.len() ==> transform_refusal(
                        normalizer,
                        #[trigger] records@[r],
                    ) is None
            },
        },
{
    if version == 0 {
        return Err(ManiaNormalizerError::ZeroVersion);
    }
    if records.len() == 0 {
        return Err(ManiaNormalizerError::NoRecords);
    }
    match check_records(records) {
        Ok(_) => {},
        Err(error) => {
            return Err(error);
        },
    }
    let cohorts: BTreeMap<u64, Vec<ManiaRawFeatureRecord>> = cohorts_of(records);
    let codes: Vec<u64> = keys64(&cohorts);
    let ghost listed = crate::ordered::list64(codes@);
    proof {
        crate::ordered::lemma_increasing_lists(crate::ordered::ints64(cohorts@.dom()));
    }
    let mut keys: Vec<KeyNormalizer> = Vec::new();
    let mut i: usize = 0;
    while i < codes.len()
        invariant
            i <= codes@.len(),
            forall|code: u64| #[trigger] cohorts@.contains_key(code) ==> code < 256,
            forall|key_count: u8|
                {
                    let members = #[trigger] cohort(records@, key_count);
                    let code = key_count as u64;
                    &&& cohorts@.contains_key(code) == (members.len() > 0)
                    &&& cohorts@.contains_key(code) ==> cohorts@[code]@ == members
                },
            forall|k: int| 0 <= k < codes@.len() ==> cohorts@.contains_key(#[trigger] codes@[k]),
            keys@.len() == i,
            forall|k: int|
                0 <= k < i ==> (#[trigger] keys@[k]).key_count == codes@[k]
                    && keys@[k].overall@.len() == 0 && cohort(records@, keys@[k].key_count).len()
                    > 0,
            forall|k: int, d: int|
                0 <= k < i && 0 <= d < 8 ==> (#[trigger] keys@[k].axes@[d])@ == in_order(
                    axis(cohort(records@, keys@[k].key_count), d),
                ),
        decreases codes@.len() - i,
    {
        let code: u64 = codes[i];
        assert(cohorts@.contains_key(codes@[i as int]));
        let key_count: u8 = code as u8;
        assert(key_count as u64 == code);
        let ghost members_view = cohort(records@, key_count);
        if let Some(members) = cohorts.get(&code) {
            let axes: [Vec<F32>; 8] = [
                sorted_values(&axis_of(members, 0)),
                sorted_values(&axis_of(members, 1)),
                sorted_values(&axis_of(members, 2)),
                sorted_values(&axis_of(members, 3)),
                sorted_values(&axis_of(members, 4)),
                sorted_values(&axis_of(members, 5)),
                sorted_values(&axis_of(members, 6)),
                sorted_values(&axis_of(members, 7)),
            ];
            assert forall|d: int| 0 <= d < 8 implies (#[trigger] axes@[d])@ == in_order(
                axis(members_view, d),
            ) by {}
            let ghost earlier = keys@;
            let ghost views = axes@;
            keys.push(KeyNormalizer { key_count, axes, overall: Vec::new() });
            assert forall|k: int, d: int| 0 <= k < i + 1 && 0 <= d < 8 implies (
            #[trigger] keys@[k].axes@[d])@ == in_order(
                axis(cohort(records@, keys@[k].key_count), d),
            ) by {
                if k < i {
                    assert(keys@[k] == earlier[k]);
                    assert(earlier[k].axes@[d]@ == in_order(
                        axis(cohort(records@, earlier[k].key_count), d),
                    ));
                } else {
                    assert(keys@[k].axes@[d] == views[d]);
                    assert(views[d]@ == in_order(axis(members_view, d)));
                }
            }
        }
        i = i + 1;
    }
    proof {
        assert forall|a: int, b: int| 0 <= a < b < keys@.len() implies (
        #[trigger] keys@[a]).key_count < (#[trigger] keys@[b]).key_count by {
            assert(listed[a] < listed[b]);
        }
        assert forall|r: int| 0 <= r < records@.len() implies has_cohort(
            keys@,
            (#[trigger] records@[r]).key_count,
        ) by {
            lemma_cohort_contains(records@, r);
            let code = records@[r].key_count as u64;
            assert(cohort(records@, records@[r].key_count).len() > 0);
            assert(cohorts@.contains_key(code));
            assert(crate::ordered::ints64(cohorts@.dom()).contains(code as int));
            assert(listed.contains(code as int));
            let k = choose|k: int| 0 <= k < listed.len() && listed[k] == code;
            assert(keys@[k].key_count == records@[r].key_count);
        }
    }
    let normalizer = ManiaNormalizer { version, analyzer_version: MANIA_ANALYZER_VERSION, keys };
    proof {
        assert forall|r: int| 0 <= r < records@.len() implies transform_refusal(
            normalizer,
            #[trigger] records@[r],
        ) is None by {
            assert(record_refusal(records@[r]) is None);
            assert(has_cohort(normalizer.keys@, records@[r].key_count));
            lemma_first_cohort_found(normalizer.keys@, records@[r].key_count, 0);
        }
    }
    Ok(normalizer)
}

// Transforming

/// Whether every value of a raw record is in its declared range: difficulties finite and not
/// negative, shares and rates from zero to one.
pub open spec fn in_range(raw: ManiaRawFeatureRecord) -> bool {
    &&& forall|d: int|
        0 <= d < 8 ==> (#[trigger] raw.difficulty.axes()[d]).finite() && zero().numeric_le(
            raw.difficulty.axes()[d],
        )
    &&& forall|d: int|
        0 <= d < 16 ==> zero().numeric_le(#[trigger] raw.style.axes()[d])
            && raw.style.axes()[d].numeric_le(one())
}

/// The number zero.
pub open spec fn zero() -> F32 {
    F32 { bits: 0 }
}

/// The number one.
pub open spec fn one() -> F32 {
    F32 { bits: 0x3f80_0000 }
}

/// The first cohort, from `from` on, of the given key count.
pub open spec fn first_cohort(keys: Seq<KeyNormalizer>, key_count: u8, from: int) -> Option<int>
    decreases keys.len() - from,
{
    if from < 0 || from >= keys.len() {
        None
    } else if keys[from].key_count == key_count {
        Some(from)
    } else {
        first_cohort(keys, key_count, from + 1)
    }
}

fn range_holds(raw: &ManiaRawFeatureRecord) -> (answer: bool)
    ensures
        answer == in_range(*raw),
{
    let zero: F32 = F32::from_bits(0);
    let one: F32 = F32::from_bits(0x3f80_0000);
    let axes: [F32; 8] = raw.difficulty.as_array();
    let mut i: usize = 0;
    while i < 8
        invariant
            i <= 8,
            zero == self::zero(),
            axes@ == raw.difficulty.axes(),
            forall|d: int|
                0 <= d < i ==> (#[trigger] raw.difficulty.axes()[d]).finite() && zero.numeric_le(
                    raw.difficulty.axes()[d],
                ),
        decreases 8 - i,
    {
        let value: F32 = axes[i];
        if !value.is_finite() || !zero.at_most(&value) {
            assert(raw.difficulty.axes()[i as int] == value);
            return false;
        }
        i = i + 1;
    }
    let style: [F32; 16] = raw.style.as_array();
    let mut k: usize = 0;
    while k < 16
        invariant
            k <= 16,
            zero == self::zero(),
            one == self::one(),
            style@ == raw.style.axes(),
            forall|d: int|
                0 <= d < k ==> zero.numeric_le(#[trigger] raw.style.axes()[d])
                    && raw.style.axes()[d].numeric_le(one),
        decreases 16 - k,
    {
        let value: F32 = style[k];
        if !zero.at_most(&value) || !value.at_most(&one) {
            assert(raw.style.axes()[k as int] == value);
            return false;
        }
        k = k + 1;
    }
    true
}

/// Why a raw record cannot be transformed.
pub open spec fn transform_refusal(
    normalizer: ManiaNormalizer,
    raw: ManiaRawFeatureRecord,
) -> Option<ManiaNormalizerError> {
    if normalizer.analyzer_version != MANIA_ANALYZER_VERSION || raw.analyzer_version
        != normalizer.analyzer_version {
        Some(ManiaNormalizerError::RecordVersion)
    } else if !in_range(raw) {
        Some(ManiaNormalizerError::Range)
    } else if first_cohort(normalizer.keys@, raw.key_count, 0) is None {
        Some(ManiaNormalizerError::NoCohort { key_count: raw.key_count })
    } else {
        None
    }
}

/// The ranks of a raw record on all axes of its cohort.
pub struct ManiaRanks {
    /// The position of the cohort in the normalizer.
    pub cohort: usize,
    pub axes: [Midrank; 8],
}

impl KeyNormalizer {
    /// Whether the values of every axis are in order.
    pub open spec fn axes_sorted(&self) -> bool {
        forall|d: int| 0 <= d < 8 ==> is_ordered((#[trigger] self.axes@[d])@)
    }

    /// The ranks of a difficulty on all axes.
    pub fn rank_axes(&self, difficulty: ManiaDifficultyVector) -> (ranks: [Midrank; 8])
        ensures
            forall|d: int|
                0 <= d < 8 && is_ordered(self.axes@[d]@) ==> #[trigger] ranks@[d] == midrank_of(
                    self.axes@[d]@,
                    difficulty.axes()[d],
                ),
            forall|d: int| 0 <= d < 8 ==> (#[trigger] ranks@[d]).is_fraction(),
    {
        let values: [F32; 8] = difficulty.as_array();
        let ranks: [Midrank; 8] = [
            midrank(&self.axes[0], values[0]),
            midrank(&self.axes[1], values[1]),
            midrank(&self.axes[2], values[2]),
            midrank(&self.axes[3], values[3]),
            midrank(&self.axes[4], values[4]),
            midrank(&self.axes[5], values[5]),
            midrank(&self.axes[6], values[6]),
            midrank(&self.axes[7], values[7]),
        ];
        ranks
    }

    /// Takes over the overall intensities of the cohort.
    fn set_overall(&mut self, intensities: &Vec<F32>)
        ensures
            final(self).key_count == old(self).key_count,
            final(self).axes == old(self).axes,
            final(self).overall@ == in_order(intensities@),
            is_ordered(final(self).overall@),
    {
        self.overall = sorted_values(intensities);
    }

    /// The rank of an overall intensity.
    pub fn rank_overall(&self, intensity: F32) -> (rank: Midrank)
        ensures
            is_ordered(self.overall@) ==> rank == midrank_of(self.overall@, intensity),
            rank.is_fraction(),
    {
        midrank(&self.overall, intensity)
    }
}

impl ManiaNormalizer {
    /// Takes over the overall intensities of the records that the normalizer was fitted to, each
    /// in the cohort of its record.
    pub fn set_intensities(
        &mut self,
        records: &Vec<ManiaRawFeatureRecord>,
        intensities: &Vec<F32>,
    )
        requires
            records@.len() == intensities@.len(),
        ensures
            final(self).version == old(self).version,
            final(self).analyzer_version == old(self).analyzer_version,
            final(self).keys@.len() == old(self).keys@.len(),
            forall|i: int|
                0 <= i < old(self).keys@.len() ==> (#[trigger] final(self).keys@[i]).key_count
                    == old(self).keys@[i].key_count && final(self).keys@[i].axes
                    == old(self).keys@[i].axes && is_ordered(final(self).keys@[i].overall@),
            fits_overall(records@, intensities@, final(self).keys@),
            fits_axes(records@, old(self).keys@) ==> fits_axes(records@, final(self).keys@),
            forall|raw: ManiaRawFeatureRecord| #[trigger]
                transform_refusal(*final(self), raw) == transform_refusal(*old(self), raw),
    {
        let ghost before = self.keys@;
        let mut i: usize = 0;
        while i < self.keys.len()
            invariant
                i <= self.keys@.len(),
                before == old(self).keys@,
                records@.len() == intensities@.len(),
                self.version == old(self).version,
                self.analyzer_version == old(self).analyzer_version,
                self.keys@.len() == before.len(),
                forall|k: int|
                    0 <= k < before.len() ==> (#[trigger] self.keys@[k]).key_count
                        == before[k].key_count && self.keys@[k].axes == before[k].axes,
                forall|k: int|
                    0 <= k < i ==> is_ordered((#[trigger] self.keys@[k]).overall@)
                        && self.keys@[k].overall@ == in_order(
                        cohort_intensities(records@, intensities@, self.keys@[k].key_count),
                    ),
            decreases self.keys@.len() - i,
        {
            let values: Vec<F32> = intensities_of(records, intensities, self.keys[i].key_count);
            self.keys[i].set_overall(&values);
            i = i + 1;
        }
        proof {
            if fits_axes(records@, before) {
                lemma_axes_carry_over(records@, before, self.keys@);
            }
            assert(same_axes(self.keys@, before));
            assert forall|raw: ManiaRawFeatureRecord| #[trigger]
                transform_refusal(*self, raw) == transform_refusal(*old(self), raw) by {
                lemma_first_cohort_agrees(self.keys@, before, raw.key_count, 0);
            }
        }
    }

    /// The ranks of a raw record on all axes of its cohort.
    pub fn transform(&self, raw: &ManiaRawFeatureRecord) -> (outcome: Result<
        ManiaRanks,
        ManiaNormalizerError,
    >)
        ensures
            match transform_refusal(*self, *raw) {
                Some(error) => outcome matches Err(reported) && reported == error,
                None => outcome matches Ok(ranks) && first_cohort(self.keys@, raw.key_count, 0)
                    == Some(ranks.cohort as int) && ranks.cohort < self.keys@.len() && forall|
                    d: int,
                |
                    0 <= d < 8 && is_ordered(self.keys@[ranks.cohort as int].axes@[d]@)
                        ==> #[trigger] ranks.axes@[d] == midrank_of(
                        self.keys@[ranks.cohort as int].axes@[d]@,
                        raw.difficulty.axes()[d],
                    ),
            },
            outcome matches Ok(ranks) ==> forall|d: int|
                0 <= d < 8 ==> (#[trigger] ranks.axes@[d]).is_fraction(),
    {
        if self.analyzer_version != MANIA_ANALYZER_VERSION || raw.analyzer_version
            != self.analyzer_version {
            return Err(ManiaNormalizerError::RecordVersion);
        }
        if !range_holds(raw) {
            return Err(ManiaNormalizerError::Range);
        }
        let mut i: usize = 0;
        while i < self.keys.len()
            invariant
                i <= self.keys@.len(),
                self.analyzer_version == MANIA_ANALYZER_VERSION,
                raw.analyzer_version == self.analyzer_version,
                in_range(*raw),
                first_cohort(self.keys@, raw.key_count, 0) == first_cohort(
                    self.keys@,
                    raw.key_count,
                    i as int,
                ),
            decreases self.keys@.len() - i,
        {
            if self.keys[i].key_count == raw.key_count {
                let axes: [Midrank; 8] = self.keys[i].rank_axes(raw.difficulty);
                return Ok(ManiaRanks { cohort: i, axes });
            }
            i = i + 1;
        }
        Err(ManiaNormalizerError::NoCohort { key_count: raw.key_count })
    }

    /// The normalizer that was loaded for `version`, if it is of that version and of the active
    /// analyzer.
    pub fn accept_loaded(self, version: u32) -> (outcome: Result<
        ManiaNormalizer,
        ManiaNormalizerError,
    >)
        ensures
            match outcome {
                Ok(normalizer) => normalizer == self && self.version == version
                    && self.analyzer_version == MANIA_ANALYZER_VERSION,
                Err(error) => error == ManiaNormalizerError::StoredVersion && (self.version
                    != version || self.analyzer_version != MANIA_ANALYZER_VERSION),
            },
    {
        if self.version != version || self.analyzer_version != MANIA_ANALYZER_VERSION {
            return Err(ManiaNormalizerError::StoredVersion);
        }
        Ok(self)
    }
}

/// The normalized record of a raw record, from its normalized difficulty, its percentile and
/// the band of that percentile.
pub fn normalized_mania_record(
    raw: &ManiaRawFeatureRecord,
    difficulty: ManiaDifficultyVector,
    difficulty_percentile: F32,
    difficulty_band: u8,
    version: u32,
) -> (record: ManiaFeatureRecord)
    ensures
        record == (ManiaFeatureRecord {
            beatmap_id: raw.beatmap_id,
            beatmapset_id: raw.beatmapset_id,
            difficulty,
            style: raw.style,
            base: raw.base,
            difficulty_percentile,
            difficulty_band,
            key_count: raw.key_count,
            mode_family: raw.mode_family,
            dominant_pattern: raw.dominant_pattern,
            analyzer_version: raw.analyzer_version,
            normalization_version: version,
        }),
{
    ManiaFeatureRecord {
        beatmap_id: raw.beatmap_id,
        beatmapset_id: raw.beatmapset_id,
        difficulty,
        style: raw.style,
        base: raw.base,
        difficulty_percentile,
        difficulty_band,
        key_count: raw.key_count,
        mode_family: raw.mode_family,
        dominant_pattern: raw.dominant_pattern,
        analyzer_version: raw.analyzer_version,
        normalization_version: version,
    }
}

/// Whether two lists of cohorts have the same key counts and axes.
pub open spec fn same_axes(left: Seq<KeyNormalizer>, right: Seq<KeyNormalizer>) -> bool {
    left.len() == right.len() && forall|i: int|
        0 <= i < left.len() ==> (#[trigger] left[i]).key_count == right[i].key_count && forall|
            d: int,
        |
            0 <= d < 8 ==> (#[trigger] left[i].axes@[d])@ == right[i].axes@[d]@
}

proof fn lemma_axes_carry_over(
    records: Seq<ManiaRawFeatureRecord>,
    before: Seq<KeyNormalizer>,
    after: Seq<KeyNormalizer>,
)
    requires
        fits_axes(records, before),
        after.len() == before.len(),
        forall|i: int|
            0 <= i < before.len() ==> (#[trigger] after[i]).key_count == before[i].key_count
                && after[i].axes == before[i].axes,
    ensures
        fits_axes(records, after),
{
    assert forall|i: int, j: int| 0 <= i < j < after.len() implies (#[trigger] after[i]).key_count
        < (#[trigger] after[j]).key_count by {
        assert(before[i].key_count < before[j].key_count);
    }
    assert forall|i: int, d: int| 0 <= i < after.len() && 0 <= d < 8 implies (
    #[trigger] after[i].axes@[d])@ == in_order(axis(cohort(records, after[i].key_count), d)) by {
        assert(after[i].axes == before[i].axes);
        assert(before[i].axes@[d]@ == in_order(axis(cohort(records, before[i].key_count), d)));
    }
    assert forall|i: int| 0 <= i < after.len() implies cohort(
        records,
        (#[trigger] after[i]).key_count,
    ).len() > 0 by {
        assert(cohort(records, before[i].key_count).len() > 0);
    }
    assert forall|r: int| 0 <= r < records.len() implies has_cohort(
        after,
        (#[trigger] records[r]).key_count,
    ) by {
        assert(has_cohort(before, records[r].key_count));
        let i = choose|i: int|
            0 <= i < before.len() && (#[trigger] before[i]).key_count == records[r].key_count;
        assert(after[i].key_count == records[r].key_count);
    }
}

/// The axes of fitted cohorts are sorted, so every rank in them is exact.
pub proof fn law_fitted_axes_are_sorted(
    records: Seq<ManiaRawFeatureRecord>,
    keys: Seq<KeyNormalizer>,
    i: int,
)
    requires
        fits_axes(records, keys),
        0 <= i < keys.len(),
    ensures
        keys[i].axes_sorted(),
{
    assert forall|d: int| 0 <= d < 8 implies is_ordered((#[trigger] keys[i].axes@[d])@) by {
        lemma_in_order_is_ordered(axis(cohort(records, keys[i].key_count), d));
    }
}

/// The axes of a cohort depend on the records of its own key count alone.
pub proof fn law_cohorts_are_independent(
    records: Seq<ManiaRawFeatureRecord>,
    other: ManiaRawFeatureRecord,
    key_count: u8,
    index: int,
)
    requires
        other.key_count != key_count,
    ensures
        axis(cohort(records.push(other), key_count), index) == axis(
            cohort(records, key_count),
            index,
        ),
{
    assert(records.push(other).drop_last() =~= records);
}

/// Fitting the same records again gives the same cohorts with the same axes.
pub proof fn law_mania_fitting_is_deterministic(
    records: Seq<ManiaRawFeatureRecord>,
    left: Seq<KeyNormalizer>,
    right: Seq<KeyNormalizer>,
)
    requires
        fits_axes(records, left),
        fits_axes(records, right),
    ensures
        same_axes(left, right),
{
    let a = Seq::new(left.len(), |i: int| left[i].key_count as int);
    let b = Seq::new(right.len(), |i: int| right[i].key_count as int);
    let ids = a.to_set();
    assert forall|id: int| #[trigger] b.contains(id) <==> ids.contains(id) by {
        if b.contains(id) {
            let j = choose|j: int| 0 <= j < b.len() && b[j] == id;
            lemma_cohort_nonempty(records, right[j].key_count);
            let r = choose|r: int|
                0 <= r < records.len() && (#[trigger] records[r]).key_count == right[j].key_count;
            assert(has_cohort(left, records[r].key_count));
            let i = choose|i: int|
                0 <= i < left.len() && (#[trigger] left[i]).key_count == records[r].key_count;
            assert(a[i] == id);
        }
        if ids.contains(id) {
            let i = choose|i: int| 0 <= i < a.len() && a[i] == id;
            lemma_cohort_nonempty(records, left[i].key_count);
            let r = choose|r: int|
                0 <= r < records.len() && (#[trigger] records[r]).key_count == left[i].key_count;
            assert(has_cohort(right, records[r].key_count));
            let j = choose|j: int|
                0 <= j < right.len() && (#[trigger] right[j]).key_count == records[r].key_count;
            assert(b[j] == id);
        }
    }
    crate::ordered::lemma_lists_is_unique(a, b, ids);
    assert(left.len() == a.len() && right.len() == b.len());
    assert forall|i: int| 0 <= i < left.len() implies (#[trigger] left[i]).key_count
        == right[i].key_count && forall|d: int|
        0 <= d < 8 ==> (#[trigger] left[i].axes@[d])@ == right[i].axes@[d]@ by {
        assert(a[i] == b[i]);
        assert forall|d: int| 0 <= d < 8 implies (#[trigger] left[i].axes@[d])@
            == right[i].axes@[d]@ by {
            assert(right[i].axes@[d]@ == in_order(axis(cohort(records, right[i].key_count), d)));
        }
    }
}

/// Fitting the same records with the same intensities again gives, under the same version, the
/// same cohorts with the same axes and overall intensities.
pub proof fn law_refitting_gives_the_same_cohorts(
    records: Seq<ManiaRawFeatureRecord>,
    intensities: Seq<F32>,
    version: u32,
    left: ManiaNormalizer,
    right: ManiaNormalizer,
)
    requires
        is_fitted(left, records, intensities, version),
        is_fitted(right, records, intensities, version),
    ensures
        left.version == right.version,
        left.analyzer_version == right.analyzer_version,
        same_axes(left.keys@, right.keys@),
        forall|i: int|
            0 <= i < left.keys@.len() ==> (#[trigger] left.keys@[i]).overall@
                == right.keys@[i].overall@,
{
    law_mania_fitting_is_deterministic(records, left.keys@, right.keys@);
    assert forall|i: int| 0 <= i < left.keys@.len() implies (#[trigger] left.keys@[i]).overall@
        == right.keys@[i].overall@ by {
        assert(left.keys@[i].key_count == right.keys@[i].key_count);
        assert(right.keys@[i].overall@ == in_order(
            cohort_intensities(records, intensities, right.keys@[i].key_count),
        ));
    }
}

/// The ranks of a raw record on all axes of the first cohort of its key count.
pub open spec fn axis_ranks(keys: Seq<KeyNormalizer>, raw: ManiaRawFeatureRecord) -> Seq<Midrank> {
    let at = first_cohort(keys, raw.key_count, 0)->Some_0;
    Seq::new(8, |d: int| midrank_of(keys[at].axes@[d]@, raw.difficulty.axes()[d]))
}

/// The rank of an overall intensity in the first cohort of a key count.
pub open spec fn overall_rank(keys: Seq<KeyNormalizer>, key_count: u8, intensity: F32) -> Midrank {
    midrank_of(keys[first_cohort(keys, key_count, 0)->Some_0].overall@, intensity)
}

/// Whether `intensities` are those of the records, where `overall` is the intensity that the
/// ranks of a record give.
pub open spec fn are_intensities(
    intensities: Seq<F32>,
    keys: Seq<KeyNormalizer>,
    records: Seq<ManiaRawFeatureRecord>,
    overall: spec_fn(Seq<Midrank>) -> F32,
) -> bool {
    intensities.len() == records.len() && forall|r: int|
        0 <= r < records.len() ==> #[trigger] intensities[r] == overall(
            axis_ranks(keys, records[r]),
        )
}

/// The normalized record of a raw record, where `share` is the number that a rank stands for,
/// `overall` the intensity that the ranks of a record give, and `band` the band of a percentile.
pub open spec fn normalized_by(
    normalizer: ManiaNormalizer,
    raw: ManiaRawFeatureRecord,
    share: spec_fn(Midrank) -> F32,
    overall: spec_fn(Seq<Midrank>) -> F32,
    band: spec_fn(F32) -> u8,
) -> ManiaFeatureRecord {
    let ranks = axis_ranks(normalizer.keys@, raw);
    let percentile = share(overall_rank(normalizer.keys@, raw.key_count, overall(ranks)));
    ManiaFeatureRecord {
        beatmap_id: raw.beatmap_id,
        beatmapset_id: raw.beatmapset_id,
        difficulty: ManiaDifficultyVector {
            speed: share(ranks[0]),
            hand_stream: share(ranks[1]),
            jack: share(ranks[2]),
            chordjack: share(ranks[3]),
            technical: share(ranks[4]),
            stamina: share(ranks[5]),
            long_note: share(ranks[6]),
            course: share(ranks[7]),
        },
        style: raw.style,
        base: raw.base,
        difficulty_percentile: percentile,
        difficulty_band: band(percentile),
        key_count: raw.key_count,
        mode_family: raw.mode_family,
        dominant_pattern: raw.dominant_pattern,
        analyzer_version: raw.analyzer_version,
        normalization_version: normalizer.version,
    }
}

/// Every rank that a fitted normalizer gives is exact: the axes and the overall intensities of
/// its cohorts are in order.
pub proof fn law_fitted_normalizers_are_sorted(
    records: Seq<ManiaRawFeatureRecord>,
    intensities: Seq<F32>,
    version: u32,
    normalizer: ManiaNormalizer,
    i: int,
)
    requires
        is_fitted(normalizer, records, intensities, version),
        0 <= i < normalizer.keys@.len(),
    ensures
        normalizer.keys@[i].axes_sorted(),
        is_ordered(normalizer.keys@[i].overall@),
{
    law_fitted_axes_are_sorted(records, normalizer.keys@, i);
    lemma_in_order_is_ordered(
        cohort_intensities(records, intensities, normalizer.keys@[i].key_count),
    );
}

/// A normalizer that was fitted to the same records again treats every raw record as the first
/// one does, whatever number a rank stands for, whatever intensity ranks give and whatever band a
/// percentile is in: both refuse the record for the same reason, or normalize it alike.
pub proof fn law_refitted_normalizers_normalize_alike(
    records: Seq<ManiaRawFeatureRecord>,
    version: u32,
    left: ManiaNormalizer,
    left_intensities: Seq<F32>,
    right: ManiaNormalizer,
    right_intensities: Seq<F32>,
    share: spec_fn(Midrank) -> F32,
    overall: spec_fn(Seq<Midrank>) -> F32,
    band: spec_fn(F32) -> u8,
    raw: ManiaRawFeatureRecord,
)
    requires
        is_fitted(left, records, left_intensities, version),
        is_fitted(right, records, right_intensities, version),
        are_intensities(left_intensities, left.keys@, records, overall),
        are_intensities(right_intensities, right.keys@, records, overall),
    ensures
        left_intensities == right_intensities,
        transform_refusal(left, raw) == transform_refusal(right, raw),
        transform_refusal(left, raw) is None ==> normalized_by(left, raw, share, overall, band)
            == normalized_by(right, raw, share, overall, band),
{
    law_mania_fitting_is_deterministic(records, left.keys@, right.keys@);
    assert forall|r: int| 0 <= r < records.len() implies left_intensities[r]
        == right_intensities[r] by {
        assert(has_cohort(left.keys@, records[r].key_count));
        lemma_first_cohort_found(left.keys@, records[r].key_count, 0);
        lemma_ranks_agree(left.keys@, right.keys@, records[r]);
        assert(left_intensities[r] == overall(axis_ranks(left.keys@, records[r])));
    }
    assert(left_intensities =~= right_intensities);
    law_refitting_gives_the_same_cohorts(records, left_intensities, version, left, right);
    lemma_first_cohort_agrees(left.keys@, right.keys@, raw.key_count, 0);
    if let Some(c) = first_cohort(left.keys@, raw.key_count, 0) {
        lemma_ranks_agree(left.keys@, right.keys@, raw);
        assert(left.keys@[c].overall@ == right.keys@[c].overall@);
    }
}

proof fn lemma_ranks_agree(
    left: Seq<KeyNormalizer>,
    right: Seq<KeyNormalizer>,
    raw: ManiaRawFeatureRecord,
)
    requires
        same_axes(left, right),
        first_cohort(left, raw.key_count, 0) is Some,
    ensures
        axis_ranks(left, raw) == axis_ranks(right, raw),
{
    lemma_first_cohort_agrees(left, right, raw.key_count, 0);
    let at = first_cohort(left, raw.key_count, 0)->Some_0;
    assert(left[at].key_count == right[at].key_count);
    assert forall|d: int| 0 <= d < 8 implies axis_ranks(left, raw)[d] == axis_ranks(
        right,
        raw,
    )[d] by {
        assert(left[at].axes@[d]@ == right[at].axes@[d]@);
    }
    assert(axis_ranks(left, raw) =~= axis_ranks(right, raw));
}

proof fn lemma_first_cohort_agrees(
    left: Seq<KeyNormalizer>,
    right: Seq<KeyNormalizer>,
    key_count: u8,
    from: int,
)
    requires
        same_axes(left, right),
        0 <= from,
    ensures
        first_cohort(left, key_count, from) == first_cohort(right, key_count, from),
        first_cohort(left, key_count, from) matches Some(c) ==> from <= c < left.len(),
    decreases left.len() - from,
{
    if from < left.len() {
        assert(left[from].key_count == right[from].key_count);
        if left[from].key_count != key_count {
            lemma_first_cohort_agrees(left, right, key_count, from + 1);
        }
    }
}

proof fn lemma_cohort_nonempty(records: Seq<ManiaRawFeatureRecord>, key_count: u8)
    requires
        cohort(records, key_count).len() > 0,
    ensures
        exists|r: int| 0 <= r < records.len() && (#[trigger] records[r]).key_count == key_count,
    decreases records.len(),
{
    if records.last().key_count == key_count {
        assert(records[records.len() - 1].key_count == key_count);
    } else {
        lemma_cohort_nonempty(records.drop_last(), key_count);
        let r = choose|r: int|
            0 <= r < records.drop_last().len() && (#[trigger] records.drop_last()[r]).key_count
                == key_count;
        assert(records[r].key_count == key_count);
    }
}

/// The name of the file that holds the mania normalizer of a version.
pub fn mania_normalizer_file(version: u32) -> (name: String)
    ensures
        name@ == "mania-v"@ + crate::text::decimal(version as nat) + ".bin"@,
{
    let mut text: Vec<char> = Vec::new();
    push_text(&mut text, "mania-v");
    push_decimal(&mut text, version as u64);
    push_text(&mut text, ".bin");
    assert(text@ =~= "mania-v"@ + crate::text::decimal(version as nat) + ".bin"@);
    string_of(text.as_slice())
}

// What fitting and ranking give

/// Sorting keeps every value as often as it occurs.
proof fn lemma_in_order_keeps(values: Seq<F32>)
    ensures
        in_order(values).to_multiset() == values.to_multiset(),
        in_order(values).len() == values.len(),
{
    crate::sorting::lemma_sorted_multiset(values, crate::sorting::keys_of(values));
    lemma_in_order_is_ordered(values);
}

/// The records of one key count are all records that declare it, in order.
pub proof fn law_cohorts_are_the_records_of_a_key_count(
    records: Seq<ManiaRawFeatureRecord>,
    key_count: u8,
)
    ensures
        cohort(records, key_count) == records.filter(
            |record: ManiaRawFeatureRecord| record.key_count == key_count,
        ),
    decreases records.len(),
{
    reveal(Seq::filter);
    if records.len() > 0 {
        law_cohorts_are_the_records_of_a_key_count(records.drop_last(), key_count);
    }
}

proof fn lemma_axis_values(
    records: Seq<ManiaRawFeatureRecord>,
    keys: Seq<KeyNormalizer>,
    i: int,
    d: int,
)
    requires
        fits_axes(records, keys),
        0 <= i < keys.len(),
        0 <= d < 8,
    ensures
        keys[i].axes@[d]@.to_multiset() == axis(
            cohort(records, keys[i].key_count),
            d,
        ).to_multiset(),
        keys[i].axes@[d]@.len() == cohort(records, keys[i].key_count).len(),
{
    let values = axis(cohort(records, keys[i].key_count), d);
    assert(keys[i].axes@[d]@ == in_order(values));
    lemma_in_order_keeps(values);
}

/// A fitted cohort is that of all records of its key count, of which there is at least one, and
/// each of its axes holds what these records have on that axis, by the name of the axis: all of
/// it, as often as it occurs, and nothing else, in the total order. Every record has a cohort,
/// and cohorts come by increasing key count.
pub proof fn law_fitted_axes_hold_the_values_of_their_records(
    records: Seq<ManiaRawFeatureRecord>,
    keys: Seq<KeyNormalizer>,
    i: int,
)
    requires
        fits_axes(records, keys),
        0 <= i < keys.len(),
    ensures
        ({
            let members = records.filter(
                |record: ManiaRawFeatureRecord| record.key_count == keys[i].key_count,
            );
            &&& members.len() > 0
            &&& keys[i].axes@[0]@.to_multiset() == members.map_values(
                |record: ManiaRawFeatureRecord| record.difficulty.speed,
            ).to_multiset()
            &&& keys[i].axes@[1]@.to_multiset() == members.map_values(
                |record: ManiaRawFeatureRecord| record.difficulty.hand_stream,
            ).to_multiset()
            &&& keys[i].axes@[2]@.to_multiset() == members.map_values(
                |record: ManiaRawFeatureRecord| record.difficulty.jack,
            ).to_multiset()
            &&& keys[i].axes@[3]@.to_multiset() == members.map_values(
                |record: ManiaRawFeatureRecord| record.difficulty.chordjack,
            ).to_multiset()
            &&& keys[i].axes@[4]@.to_multiset() == members.map_values(
                |record: ManiaRawFeatureRecord| record.difficulty.technical,
            ).to_multiset()
            &&& keys[i].axes@[5]@.to_multiset() == members.map_values(
                |record: ManiaRawFeatureRecord| record.difficulty.stamina,
            ).to_multiset()
            &&& keys[i].axes@[6]@.to_multiset() == members.map_values(
                |record: ManiaRawFeatureRecord| record.difficulty.long_note,
            ).to_multiset()
            &&& keys[i].axes@[7]@.to_multiset() == members.map_values(
                |record: ManiaRawFeatureRecord| record.difficulty.course,
            ).to_multiset()
        }),
        forall|d: int, a: int, b: int|
            0 <= d < 8 && 0 <= a < b < keys[i].axes@[d]@.len() ==> (
            #[trigger] keys[i].axes@[d]@[a]).total_key() <= (
            #[trigger] keys[i].axes@[d]@[b]).total_key(),
        forall|r: int|
            0 <= r < records.len() ==> exists|j: int|
                0 <= j < keys.len() && (#[trigger] keys[j]).key_count == (
                #[trigger] records[r]).key_count,
        forall|j: int, k: int|
            0 <= j < k < keys.len() ==> (#[trigger] keys[j]).key_count < (
            #[trigger] keys[k]).key_count,
{
    let members = cohort(records, keys[i].key_count);
    law_cohorts_are_the_records_of_a_key_count(records, keys[i].key_count);
    assert(cohort(records, keys[i].key_count).len() > 0);
    lemma_axis_values(records, keys, i, 0);
    assert(axis(members, 0) =~= members.map_values(
        |record: ManiaRawFeatureRecord| record.difficulty.speed,
    ));
    lemma_axis_values(records, keys, i, 1);
    assert(axis(members, 1) =~= members.map_values(
        |record: ManiaRawFeatureRecord| record.difficulty.hand_stream,
    ));
    lemma_axis_values(records, keys, i, 2);
    assert(axis(members, 2) =~= members.map_values(
        |record: ManiaRawFeatureRecord| record.difficulty.jack,
    ));
    lemma_axis_values(records, keys, i, 3);
    assert(axis(members, 3) =~= members.map_values(
        |record: ManiaRawFeatureRecord| record.difficulty.chordjack,
    ));
    lemma_axis_values(records, keys, i, 4);
    assert(axis(members, 4) =~= members.map_values(
        |record: ManiaRawFeatureRecord| record.difficulty.technical,
    ));
    lemma_axis_values(records, keys, i, 5);
    assert(axis(members, 5) =~= members.map_values(
        |record: ManiaRawFeatureRecord| record.difficulty.stamina,
    ));
    lemma_axis_values(records, keys, i, 6);
    assert(axis(members, 6) =~= members.map_values(
        |record: ManiaRawFeatureRecord| record.difficulty.long_note,
    ));
    lemma_axis_values(records, keys, i, 7);
    assert(axis(members, 7) =~= members.map_values(
        |record: ManiaRawFeatureRecord| record.difficulty.course,
    ));
    law_fitted_axes_are_sorted(records, keys, i);
    assert forall|d: int, a: int, b: int|
        0 <= d < 8 && 0 <= a < b < keys[i].axes@[d]@.len() implies (
    #[trigger] keys[i].axes@[d]@[a]).total_key() <= (
    #[trigger] keys[i].axes@[d]@[b]).total_key() by {
        assert(is_ordered(keys[i].axes@[d]@));
    }
    assert forall|r: int| 0 <= r < records.len() implies exists|j: int|
        0 <= j < keys.len() && (#[trigger] keys[j]).key_count == (
        #[trigger] records[r]).key_count by {
        assert(has_cohort(keys, records[r].key_count));
    }
}

/// The overall intensities of a fitted cohort are those that were given for its records, in the
/// total order.
pub proof fn law_fitted_intensities_are_those_of_their_records(
    records: Seq<ManiaRawFeatureRecord>,
    intensities: Seq<F32>,
    keys: Seq<KeyNormalizer>,
    i: int,
)
    requires
        fits_overall(records, intensities, keys),
        intensities.len() == records.len(),
        0 <= i < keys.len(),
    ensures
        keys[i].overall@.to_multiset() == Seq::new(
            records.len(),
            |k: int| (records[k], intensities[k]),
        ).filter(
            |pair: (ManiaRawFeatureRecord, F32)| pair.0.key_count == keys[i].key_count,
        ).map_values(|pair: (ManiaRawFeatureRecord, F32)| pair.1).to_multiset(),
        forall|a: int, b: int|
            0 <= a < b < keys[i].overall@.len() ==> (#[trigger] keys[i].overall@[a]).total_key()
                <= (#[trigger] keys[i].overall@[b]).total_key(),
{
    let values = cohort_intensities(records, intensities, keys[i].key_count);
    assert(keys[i].overall@ == in_order(values));
    lemma_in_order_keeps(values);
    lemma_in_order_is_ordered(values);
    lemma_cohort_intensities(records, intensities, keys[i].key_count);
}

proof fn lemma_cohort_intensities(
    records: Seq<ManiaRawFeatureRecord>,
    intensities: Seq<F32>,
    key_count: u8,
)
    requires
        intensities.len() == records.len(),
    ensures
        cohort_intensities(records, intensities, key_count) == Seq::new(
            records.len(),
            |k: int| (records[k], intensities[k]),
        ).filter(
            |pair: (ManiaRawFeatureRecord, F32)| pair.0.key_count == key_count,
        ).map_values(|pair: (ManiaRawFeatureRecord, F32)| pair.1),
    decreases records.len(),
{
    reveal(Seq::filter);
    let pairs = Seq::new(records.len(), |k: int| (records[k], intensities[k]));
    let test = |pair: (ManiaRawFeatureRecord, F32)| pair.0.key_count == key_count;
    let second = |pair: (ManiaRawFeatureRecord, F32)| pair.1;
    if records.len() > 0 {
        let front_records = records.drop_last();
        let front_intensities = intensities.drop_last();
        let front = Seq::new(
            front_records.len(),
            |k: int| (front_records[k], front_intensities[k]),
        );
        lemma_cohort_intensities(front_records, front_intensities, key_count);
        assert(pairs.drop_last() =~= front);
        assert(pairs.last() == (records.last(), intensities.last()));
        assert(pairs.filter(test).map_values(second) =~= cohort_intensities(
            records,
            intensities,
            key_count,
        ));
    } else {
        assert(pairs.filter(test).map_values(second) =~= cohort_intensities(
            records,
            intensities,
            key_count,
        ));
    }
}

proof fn lemma_counts_are_filters(values: Seq<F32>, value: F32, count: nat)
    requires
        count <= values.len(),
    ensures
        count_before(values, value, count) == values.take(count as int).filter(
            |other: F32| other.total_key() < value.total_key(),
        ).len(),
        count_up_to(values, value, count) == values.take(count as int).filter(
            |other: F32| other.total_key() <= value.total_key(),
        ).len(),
    decreases count,
{
    reveal(Seq::filter);
    if count > 0 {
        lemma_counts_are_filters(values, value, (count - 1) as nat);
        assert(values.take(count as int).drop_last() =~= values.take(count - 1));
    }
}

/// Where a value ranks: in the middle of the places that the values equal to it take among the
/// others, or, if there are none, behind all smaller ones, but never behind the last place. Ranks
/// are doubled so that a middle between two places is whole. Of at most one value the rank is a
/// half.
pub proof fn law_midranks_are_middle_places(values: Seq<F32>, value: F32)
    requires
        values.len() <= usize::MAX,
    ensures
        ({
            let smaller = values.filter(
                |other: F32| other.total_key() < value.total_key(),
            ).len() as int;
            let reached = values.filter(
                |other: F32| other.total_key() <= value.total_key(),
            ).len() as int;
            let last = values.len() - 1;
            let rank = midrank_of(values, value);
            if values.len() <= 1 {
                rank.twice_position == 1 && rank.twice_last == 2
            } else {
                &&& rank.twice_last == 2 * last
                &&& reached > smaller ==> rank.twice_position == smaller + (reached - 1)
                &&& reached == smaller && smaller <= last ==> rank.twice_position == 2 * smaller
                &&& reached == smaller && smaller > last ==> rank.twice_position == 2 * last
            }
        }),
{
    assert(values.take(values.len() as int) =~= values);
    lemma_counts_are_filters(values, value, values.len());
    lemma_counts_bounds(values, value, values.len());
}

proof fn lemma_equal_values(values: Seq<F32>, value: F32, count: nat)
    requires
        count <= values.len(),
    ensures
        count_up_to(values, value, count) == count_before(values, value, count) + values.take(
            count as int,
        ).to_multiset().count(value),
    decreases count,
{
    broadcast use vstd::seq_lib::group_to_multiset_ensures;

    if count > 0 {
        lemma_equal_values(values, value, (count - 1) as nat);
        let front = values.take(count - 1);
        assert(values.take(count as int) =~= front.push(values[count - 1]));
        crate::float_bits::lemma_total_order_is_injective(values[count - 1], value);
    } else {
        assert(values.take(0) =~= Seq::<F32>::empty());
    }
}

proof fn lemma_all_counted(values: Seq<F32>, value: F32, count: nat)
    requires
        count <= values.len(),
    ensures
        (forall|k: int| 0 <= k < count ==> (#[trigger] values[k]).total_key() <= value.total_key())
            ==> count_up_to(values, value, count) == count,
        (forall|k: int| 0 <= k < count ==> (#[trigger] values[k]).total_key() >= value.total_key())
            ==> count_before(values, value, count) == 0,
    decreases count,
{
    if count > 0 {
        lemma_all_counted(values, value, (count - 1) as nat);
    }
}

proof fn lemma_single_count(values: Seq<F32>, j: int)
    requires
        0 <= j < values.len(),
        forall|k: int| 0 <= k < values.len() && k != j ==> #[trigger] values[k] != values[j],
    ensures
        values.to_multiset().count(values[j]) == 1,
    decreases values.len(),
{
    broadcast use vstd::seq_lib::group_to_multiset_ensures;

    let front = values.drop_last();
    assert(front.push(values.last()) =~= values);
    if j < values.len() - 1 {
        assert(front[j] == values[j]);
        assert forall|k: int| 0 <= k < front.len() && k != j implies #[trigger] front[k]
            != front[j] by {
            assert(values[k] != values[j]);
        }
        lemma_single_count(front, j);
        assert(values[values.len() - 1] != values[j]);
    } else {
        if front.contains(values[j]) {
            let k = choose|k: int| 0 <= k < front.len() && front[k] == values[j];
            assert(values[k] != values[j]);
        }
        vstd::seq_lib::to_multiset_contains(front, values[j]);
    }
}

/// In a fitted cohort of two or more records, a record that alone has the least value on an axis
/// ranks first on that axis, and one that alone has the greatest ranks last, whatever it has on
/// the other axes.
pub proof fn law_extreme_records_rank_at_the_ends(
    records: Seq<ManiaRawFeatureRecord>,
    keys: Seq<KeyNormalizer>,
    i: int,
    d: int,
    j: int,
)
    requires
        fits_axes(records, keys),
        0 <= i < keys.len(),
        0 <= d < 8,
        0 <= j < records.filter(
            |record: ManiaRawFeatureRecord| record.key_count == keys[i].key_count,
        ).len(),
        2 <= records.filter(
            |record: ManiaRawFeatureRecord| record.key_count == keys[i].key_count,
        ).len() <= usize::MAX,
    ensures
        ({
            let members = records.filter(
                |record: ManiaRawFeatureRecord| record.key_count == keys[i].key_count,
            );
            let own = members[j].difficulty.axes()[d];
            let rank = midrank_of(keys[i].axes@[d]@, own);
            &&& (forall|k: int|
                0 <= k < members.len() && k != j ==> own.total_key() < (
                #[trigger] members[k]).difficulty.axes()[d].total_key()) ==> rank.twice_position
                == 0
            &&& (forall|k: int|
                0 <= k < members.len() && k != j ==> (
                #[trigger] members[k]).difficulty.axes()[d].total_key() < own.total_key())
                ==> rank.twice_position == rank.twice_last
        }),
{
    let members = cohort(records, keys[i].key_count);
    law_cohorts_are_the_records_of_a_key_count(records, keys[i].key_count);
    let own = members[j].difficulty.axes()[d];
    let values = axis(members, d);
    let sorted = keys[i].axes@[d]@;
    lemma_axis_values(records, keys, i, d);
    lemma_counts_bounds(sorted, own, sorted.len());
    assert(sorted.take(sorted.len() as int) =~= sorted);
    lemma_equal_values(sorted, own, sorted.len());
    lemma_all_counted(sorted, own, sorted.len());
    assert forall|k: int| 0 <= k < sorted.len() implies values.contains(#[trigger] sorted[k]) by {
        assert(sorted.contains(sorted[k]));
        vstd::seq_lib::to_multiset_contains(sorted, sorted[k]);
        vstd::seq_lib::to_multiset_contains(values, sorted[k]);
    }
    if forall|k: int|
        0 <= k < members.len() && k != j ==> own.total_key() < (
        #[trigger] members[k]).difficulty.axes()[d].total_key() {
        assert forall|k: int| 0 <= k < values.len() && k != j implies #[trigger] values[k]
            != values[j] by {
            assert(own.total_key() < members[k].difficulty.axes()[d].total_key());
        }
        lemma_single_count(values, j);
        assert forall|k: int| 0 <= k < sorted.len() implies (#[trigger] sorted[k]).total_key()
            >= own.total_key() by {
            assert(values.contains(sorted[k]));
            let p = choose|p: int| 0 <= p < values.len() && values[p] == sorted[k];
            if p != j {
                assert(own.total_key() < members[p].difficulty.axes()[d].total_key());
            }
        }
    }
    if forall|k: int|
        0 <= k < members.len() && k != j ==> (#[trigger] members[k]).difficulty.axes()[d].total_key()
            < own.total_key() {
        assert forall|k: int| 0 <= k < values.len() && k != j implies #[trigger] values[k]
            != values[j] by {
            assert(members[k].difficulty.axes()[d].total_key() < own.total_key());
        }
        lemma_single_count(values, j);
        assert forall|k: int| 0 <= k < sorted.len() implies (#[trigger] sorted[k]).total_key()
            <= own.total_key() by {
            assert(values.contains(sorted[k]));
            let p = choose|p: int| 0 <= p < values.len() && values[p] == sorted[k];
            if p != j {
                assert(members[p].difficulty.axes()[d].total_key() < own.total_key());
            }
        }
    }
}

/// Which raw records a normalizer takes: those of the current analyzer version, if it is of that
/// version itself, whose difficulties are numbers of at least zero and whose style values are
/// numbers from zero to one, and for whose key count it has a cohort.
pub proof fn law_transform_takes_valid_records(
    normalizer: ManiaNormalizer,
    raw: ManiaRawFeatureRecord,
)
    ensures
        transform_refusal(normalizer, raw) is None <==> {
            &&& normalizer.analyzer_version == MANIA_ANALYZER_VERSION
            &&& raw.analyzer_version == MANIA_ANALYZER_VERSION
            &&& forall|d: int|
                0 <= d < 8 ==> {
                    let value = #[trigger] raw.difficulty.axes()[d];
                    value.bits < 0x7f80_0000 || value.bits == 0x8000_0000
                }
            &&& forall|d: int|
                0 <= d < 16 ==> {
                    let value = #[trigger] raw.style.axes()[d];
                    value.bits <= 0x3f80_0000 || value.bits == 0x8000_0000
                }
            &&& exists|i: int|
                0 <= i < normalizer.keys@.len() && (#[trigger] normalizer.keys@[i]).key_count
                    == raw.key_count
        },
{
    lemma_first_cohort_is_first(normalizer.keys@, raw.key_count, 0);
    assert forall|d: int| 0 <= d < 8 implies {
        let value = #[trigger] raw.difficulty.axes()[d];
        (value.finite() && zero().numeric_le(value)) == (value.bits < 0x7f80_0000 || value.bits
            == 0x8000_0000)
    } by {}
    assert forall|d: int| 0 <= d < 16 implies {
        let value = #[trigger] raw.style.axes()[d];
        (zero().numeric_le(value) && value.numeric_le(one())) == (value.bits <= 0x3f80_0000
            || value.bits == 0x8000_0000)
    } by {}
}

proof fn lemma_first_cohort_is_first(keys: Seq<KeyNormalizer>, key_count: u8, from: int)
    requires
        0 <= from,
    ensures
        match first_cohort(keys, key_count, from) {
            Some(at) => from <= at < keys.len() && keys[at].key_count == key_count && forall|i: int|
                from <= i < at ==> (#[trigger] keys[i]).key_count != key_count,
            None => forall|i: int|
                from <= i < keys.len() ==> (#[trigger] keys[i]).key_count != key_count,
        },
    decreases keys.len() - from,
{
    if from < keys.len() && keys[from].key_count != key_count {
        lemma_first_cohort_is_first(keys, key_count, from + 1);
    }
}

/// A raw record is ranked in the first cohort of its own key count.
pub proof fn law_records_are_ranked_in_their_own_cohort(
    keys: Seq<KeyNormalizer>,
    key_count: u8,
)
    ensures
        match first_cohort(keys, key_count, 0) {
            Some(at) => 0 <= at < keys.len() && keys[at].key_count == key_count && forall|i: int|
                0 <= i < at ==> (#[trigger] keys[i]).key_count != key_count,
            None => forall|i: int|
                0 <= i < keys.len() ==> (#[trigger] keys[i]).key_count != key_count,
        },
{
    lemma_first_cohort_is_first(keys, key_count, 0);
}

/// A normalizer can be fitted to any records, at least one, under a positive version, if each of
/// them is of the current analyzer version and in range. Otherwise the first record that is not
/// decides why it cannot.
pub proof fn law_fitting_takes_valid_records(records: Seq<ManiaRawFeatureRecord>, version: u32)
    ensures
        fit_refusal(records, version) is None <==> {
            &&& version > 0
            &&& records.len() > 0
            &&& forall|r: int|
                0 <= r < records.len() ==> (#[trigger] records[r]).analyzer_version
                    == MANIA_ANALYZER_VERSION
            &&& forall|r: int, d: int|
                0 <= r < records.len() && 0 <= d < 8 ==> {
                    let value = #[trigger] records[r].difficulty.axes()[d];
                    value.bits < 0x7f80_0000 || value.bits == 0x8000_0000
                }
            &&& forall|r: int, d: int|
                0 <= r < records.len() && 0 <= d < 16 ==> {
                    let value = #[trigger] records[r].style.axes()[d];
                    value.bits <= 0x3f80_0000 || value.bits == 0x8000_0000
                }
        },
{
    lemma_first_refusal(records, 0);
    assert forall|r: int| 0 <= r < records.len() implies (record_refusal(
        #[trigger] records[r],
    ) is None <==> {
        &&& records[r].analyzer_version == MANIA_ANALYZER_VERSION
        &&& forall|d: int|
            0 <= d < 8 ==> {
                let value = #[trigger] records[r].difficulty.axes()[d];
                value.bits < 0x7f80_0000 || value.bits == 0x8000_0000
            }
        &&& forall|d: int|
            0 <= d < 16 ==> {
                let value = #[trigger] records[r].style.axes()[d];
                value.bits <= 0x3f80_0000 || value.bits == 0x8000_0000
            }
    }) by {
        let raw = records[r];
        assert forall|d: int| 0 <= d < 8 implies {
            let value = #[trigger] raw.difficulty.axes()[d];
            (value.finite() && zero().numeric_le(value)) == (value.bits < 0x7f80_0000
                || value.bits == 0x8000_0000)
        } by {}
        assert forall|d: int| 0 <= d < 16 implies {
            let value = #[trigger] raw.style.axes()[d];
            (zero().numeric_le(value) && value.numeric_le(one())) == (value.bits <= 0x3f80_0000
                || value.bits == 0x8000_0000)
        } by {}
    }
}

proof fn lemma_first_refusal(records: Seq<ManiaRawFeatureRecord>, from: int)
    requires
        0 <= from,
    ensures
        first_refusal(records, from) is None <==> forall|r: int|
            from <= r < records.len() ==> record_refusal(#[trigger] records[r]) is None,
    decreases records.len() - from,
{
    if from < records.len() {
        lemma_first_refusal(records, from + 1);
    }
}

/// On every axis a normalized record holds what the rank of the raw value on that axis stands
/// for. What is not ranked stays as it was.
pub proof fn law_normalized_records_keep_to_their_axes(
    normalizer: ManiaNormalizer,
    raw: ManiaRawFeatureRecord,
    share: spec_fn(Midrank) -> F32,
    overall: spec_fn(Seq<Midrank>) -> F32,
    band: spec_fn(F32) -> u8,
)
    ensures
        ({
            let key = normalizer.keys@[first_cohort(normalizer.keys@, raw.key_count, 0)->Some_0];
            let record = normalized_by(normalizer, raw, share, overall, band);
            &&& record.difficulty.speed == share(midrank_of(key.axes@[0]@, raw.difficulty.speed))
            &&& record.difficulty.hand_stream == share(midrank_of(key.axes@[1]@, raw.difficulty.hand_stream))
            &&& record.difficulty.jack == share(midrank_of(key.axes@[2]@, raw.difficulty.jack))
            &&& record.difficulty.chordjack == share(midrank_of(key.axes@[3]@, raw.difficulty.chordjack))
            &&& record.difficulty.technical == share(midrank_of(key.axes@[4]@, raw.difficulty.technical))
            &&& record.difficulty.stamina == share(midrank_of(key.axes@[5]@, raw.difficulty.stamina))
            &&& record.difficulty.long_note == share(midrank_of(key.axes@[6]@, raw.difficulty.long_note))
            &&& record.difficulty.course == share(midrank_of(key.axes@[7]@, raw.difficulty.course))
            &&& record.beatmap_id == raw.beatmap_id
            &&& record.beatmapset_id == raw.beatmapset_id
            &&& record.style == raw.style
            &&& record.base == raw.base
            &&& record.key_count == raw.key_count
            &&& record.mode_family == raw.mode_family
            &&& record.dominant_pattern == raw.dominant_pattern
            &&& record.analyzer_version == raw.analyzer_version
            &&& record.normalization_version == normalizer.version
            &&& record.difficulty_band == band(record.difficulty_percentile)
        }),
{
}

} // verus!
