//! The normalizer of the osu!standard dataset.
//!
//! A raw value is normalized to its rank among the distinct raw values of its dimension. The
//! rank is kept as a fraction of positions; dividing it is left to whoever works with floats.

use vstd::prelude::*;

use crate::float_bits::F32;
use crate::sorting::order_of;
use crate::store::{FeatureStore, StoreError};
use crate::text::{push_decimal, push_text, string_of};
use crate::types::{BeatmapFeatureRecord, DifficultyVector, RawFeatureRecord};

verus! {

/// The distinct raw values of each dimension, in the total order of encodings.
pub struct Normalizer {
    pub version: u32,
    pub quantiles: [Vec<F32>; 5],
}

#[derive(Clone, Copy, Debug, PartialEq, Eq, Structural)]
pub enum FitError {
    ZeroVersion,
    Store { error: StoreError },
    NoRecords,
}

impl FitError {
    pub open spec fn text(self) -> Seq<char> {
        match self {
            FitError::ZeroVersion => "normalization version must be positive"@,
            FitError::Store { error } => error.text(),
            FitError::NoRecords => "cannot fit a normalizer without raw feature records"@,
        }
    }

    /// The error in words.
    pub fn message(&self) -> (message: String)
        ensures
            message@ == self.text(),
    {
        match self {
            FitError::ZeroVersion => String::from_str("normalization version must be positive"),
            FitError::Store { error } => error.message(),
            FitError::NoRecords => String::from_str(
                "cannot fit a normalizer without raw feature records",
            ),
        }
    }
}

/// The values of one dimension, in the order of the records.
pub open spec fn column(records: Seq<RawFeatureRecord>, dimension: int) -> Seq<F32> {
    Seq::new(records.len(), |i: int| records[i].raw_difficulty.dimensions()[dimension])
}

/// Whether `values` are in the total order of encodings, none of them twice.
pub open spec fn strictly_ordered(values: Seq<F32>) -> bool {
    forall|i: int, j: int|
        0 <= i < j < values.len() ==> (#[trigger] values[i]).total_key() < (
        #[trigger] values[j]).total_key()
}

/// Whether `quantiles` are the members of `values`, each once, in the total order.
pub open spec fn are_quantiles(quantiles: Seq<F32>, values: Seq<F32>) -> bool {
    strictly_ordered(quantiles) && forall|value: F32| #[trigger]
        quantiles.contains(value) <==> values.contains(value)
}

fn column_of(records: &Vec<RawFeatureRecord>, dimension: usize) -> (values: Vec<F32>)
    requires
        dimension < 5,
    ensures
        values@ == column(records@, dimension as int),
{
    let mut values: Vec<F32> = Vec::new();
    let mut i: usize = 0;
    while i < records.len()
        invariant
            i <= records@.len(),
            dimension < 5,
            values@.len() == i,
            forall|k: int|
                0 <= k < i ==> values@[k] == records@[k].raw_difficulty.dimensions()[
                    dimension as int
                ],
        decreases records@.len() - i,
    {
        let dimensions: [F32; 5] = records[i].raw_difficulty.as_array();
        values.push(dimensions[dimension]);
        i = i + 1;
    }
    assert(values@ =~= column(records@, dimension as int));
    values
}

/// The members of `values`, each once, in the total order.
fn quantiles_of(values: &Vec<F32>) -> (quantiles: Vec<F32>)
    ensures
        are_quantiles(quantiles@, values@),
{
    let order: Vec<usize> = order_of(values);
    let ghost keys = crate::sorting::keys_of(values@);
    let ghost stable = crate::sorting::stable_order(keys);
    proof {
        crate::sorting::lemma_stable_order(keys);
    }
    let mut quantiles: Vec<F32> = Vec::new();
    let mut i: usize = 0;
    while i < order.len()
        invariant
            i <= order@.len(),
            order@.len() == values@.len(),
            keys == crate::sorting::keys_of(values@),
            stable == crate::sorting::positions(order@),
            crate::sorting::is_stable_order(keys, stable),
            forall|k: int| 0 <= k < order@.len() ==> #[trigger] order@[k] < values@.len(),
            strictly_ordered(quantiles@),
            forall|k: int| 0 <= k < quantiles@.len() ==> values@.contains(#[trigger] quantiles@[k]),
            i == 0 ==> quantiles@.len() == 0,
            i > 0 ==> quantiles@.len() > 0 && quantiles@.last() == values@[stable[i - 1]],
            forall|k: int| 0 <= k < i ==> quantiles@.contains(values@[#[trigger] stable[k]]),
        decreases order@.len() - i,
    {
        let next: F32 = values[order[i]];
        let ghost before = quantiles@;
        proof {
            assert(stable[i as int] == order@[i as int]);
            assert(values@[stable[i as int]] == next);
            if i > 0 {
                let last = values@[stable[i - 1]];
                assert(crate::sorting::comes_before(keys, stable[i - 1], stable[i as int]));
                assert(keys[stable[i - 1]] == seq![last.total_key()]);
                assert(keys[stable[i as int]] == seq![next.total_key()]);
                assert(seq![last.total_key()].drop_first() =~= seq![]);
                reveal_with_fuel(crate::sorting::lex_le, 2);
                crate::float_bits::lemma_total_order_is_injective(last, next);
            }
        }
        let repeated: bool = i > 0 && quantiles[quantiles.len() - 1].bits == next.bits;
        if !repeated {
            proof {
                assert forall|a: int| 0 <= a < before.len() implies (
                #[trigger] before[a]).total_key() < next.total_key() by {
                    if a < before.len() - 1 {
                        assert(before[a].total_key() < before[before.len() - 1].total_key());
                    }
                }
            }
            quantiles.push(next);
        }
        proof {
            assert forall|k: int| 0 <= k < i + 1 implies quantiles@.contains(
                values@[#[trigger] stable[k]],
            ) by {
                if k < i {
                    let p = choose|p: int| 0 <= p < before.len() && before[p] == values@[stable[k]];
                    assert(quantiles@[p] == values@[stable[k]]);
                } else {
                    assert(quantiles@[quantiles@.len() - 1] == next);
                }
            }
        }
        i = i + 1;
    }
    proof {
        assert forall|value: F32| #[trigger] quantiles@.contains(value) <==> values@.contains(
            value,
        ) by {
            if quantiles@.contains(value) {
                let p = choose|p: int| 0 <= p < quantiles@.len() && quantiles@[p] == value;
                assert(values@.contains(quantiles@[p]));
            }
            if values@.contains(value) {
                let r = choose|r: int| 0 <= r < values@.len() && values@[r] == value;
                assert(stable.contains(r));
                let k = choose|k: int| 0 <= k < stable.len() && stable[k] == r;
                assert(quantiles@.contains(values@[stable[k]]));
            }
        }
    }
    quantiles
}

/// What fitting a normalizer is refused for.
pub open spec fn fit_refusal(store: FeatureStore, version: u32) -> Option<FitError> {
    if version == 0 {
        Some(FitError::ZeroVersion)
    } else {
        match crate::store::raw_outcome(store.tables) {
            Err(error) => Some(FitError::Store { error }),
            Ok(records) => if records.len() == 0 {
                Some(FitError::NoRecords)
            } else {
                None
            },
        }
    }
}

/// The normalizer of the raw records of the current analyzer version.
pub fn fit_normalizer(store: &FeatureStore, version: u32) -> (outcome: Result<
    Normalizer,
    FitError,
>)
    ensures
        match fit_refusal(*store, version) {
            Some(error) => outcome matches Err(reported) && reported == error,
            None => outcome matches Ok(normalizer) && normalizer.version == version && forall|
                d: int,
            |
                0 <= d < 5 ==> are_quantiles(
                    (#[trigger] normalizer.quantiles@[d])@,
                    column(crate::store::raw_outcome(store.tables)->Ok_0, d),
                ),
        },
{
    if version == 0 {
        return Err(FitError::ZeroVersion);
    }
    let records: Vec<RawFeatureRecord> = match store.raw_records() {
        Ok(records) => records,
        Err(error) => {
            return Err(FitError::Store { error });
        },
    };
    if records.len() == 0 {
        return Err(FitError::NoRecords);
    }
    let aim: Vec<F32> = quantiles_of(&column_of(&records, 0));
    let speed: Vec<F32> = quantiles_of(&column_of(&records, 1));
    let reading: Vec<F32> = quantiles_of(&column_of(&records, 2));
    let slider: Vec<F32> = quantiles_of(&column_of(&records, 3));
    let overlap: Vec<F32> = quantiles_of(&column_of(&records, 4));
    Ok(Normalizer { version, quantiles: [aim, speed, reading, slider, overlap] })
}

/// Fitting the same records again gives the same quantiles.
pub proof fn law_fitting_is_deterministic(left: Seq<F32>, right: Seq<F32>, values: Seq<F32>)
    requires
        are_quantiles(left, values),
        are_quantiles(right, values),
    ensures
        left == right,
{
    let keys_left = Seq::new(left.len(), |i: int| left[i].total_key());
    let keys_right = Seq::new(right.len(), |i: int| right[i].total_key());
    let ids = keys_left.to_set();
    assert forall|key: int| #[trigger] keys_right.contains(key) <==> ids.contains(key) by {
        if keys_right.contains(key) {
            let j = choose|j: int| 0 <= j < right.len() && keys_right[j] == key;
            assert(right.contains(right[j]));
            assert(left.contains(right[j]));
            let i = choose|i: int| 0 <= i < left.len() && left[i] == right[j];
            assert(keys_left[i] == key);
        }
        if ids.contains(key) {
            let i = choose|i: int| 0 <= i < left.len() && keys_left[i] == key;
            assert(left.contains(left[i]));
            assert(right.contains(left[i]));
            let j = choose|j: int| 0 <= j < right.len() && right[j] == left[i];
            assert(keys_right[j] == key);
        }
    }
    crate::ordered::lemma_lists_is_unique(keys_left, keys_right, ids);
    assert(left.len() == keys_left.len() && right.len() == keys_right.len());
    assert forall|i: int| 0 <= i < left.len() implies left[i] == right[i] by {
        assert(keys_left[i] == keys_right[i]);
        crate::float_bits::lemma_total_order_is_injective(left[i], right[i]);
    }
    assert(left =~= right);
}

/// A rank among the quantiles of a dimension: a position and the last position. A dimension
/// with at most one quantile ranks everything at zero.
#[derive(Clone, Copy, Debug, PartialEq, Eq, Structural)]
pub struct Rank {
    pub position: usize,
    pub last: usize,
}

/// Whether the quantiles that are at most `value` come before all others. They do unless the
/// quantiles hold a negative NaN.
pub open spec fn is_partitioned(quantiles: Seq<F32>, value: F32) -> bool {
    forall|i: int, j: int|
        0 <= i < j < quantiles.len() && (#[trigger] quantiles[j]).numeric_le(value) ==> (
        #[trigger] quantiles[i]).numeric_le(value)
}

/// How many of the first `count` quantiles are at most `value`.
pub open spec fn count_at_most(quantiles: Seq<F32>, value: F32, count: nat) -> nat
    decreases count,
{
    if count == 0 {
        0
    } else {
        count_at_most(quantiles, value, (count - 1) as nat) + if quantiles[count - 1].numeric_le(
            value,
        ) {
            1nat
        } else {
            0nat
        }
    }
}

/// The rank of `value`: the position of the last quantile that it reaches, or the first.
pub open spec fn rank_of(quantiles: Seq<F32>, value: F32) -> Rank {
    if quantiles.len() <= 1 {
        Rank { position: 0, last: 0 }
    } else {
        let reached = count_at_most(quantiles, value, quantiles.len());
        Rank {
            position: if reached == 0 {
                0
            } else {
                (reached - 1) as usize
            },
            last: (quantiles.len() - 1) as usize,
        }
    }
}

proof fn lemma_count_partitioned(quantiles: Seq<F32>, value: F32, split: int, count: nat)
    requires
        0 <= split <= quantiles.len(),
        count <= quantiles.len(),
        forall|i: int| 0 <= i < split ==> (#[trigger] quantiles[i]).numeric_le(value),
        forall|i: int| split <= i < quantiles.len() ==> !(#[trigger] quantiles[i]).numeric_le(value),
    ensures
        count_at_most(quantiles, value, count) == if count <= split {
            count as int
        } else {
            split
        },
    decreases count,
{
    if count > 0 {
        lemma_count_partitioned(quantiles, value, split, (count - 1) as nat);
    }
}

/// The rank of `value` among `quantiles` that are partitioned by it. Among others it is some
/// rank.
pub fn rank(quantiles: &Vec<F32>, value: F32) -> (rank: Rank)
    ensures
        is_partitioned(quantiles@, value) ==> rank == rank_of(quantiles@, value),
        rank.position <= rank.last,
        rank.last == if quantiles@.len() <= 1 {
            0
        } else {
            quantiles@.len() - 1
        },
{
    if quantiles.len() <= 1 {
        return Rank { position: 0, last: 0 };
    }
    let mut low: usize = 0;
    let mut high: usize = quantiles.len();
    while low < high
        invariant
            low <= high <= quantiles@.len(),
            is_partitioned(quantiles@, value) ==> forall|i: int|
                0 <= i < low ==> (#[trigger] quantiles@[i]).numeric_le(value),
            is_partitioned(quantiles@, value) ==> forall|i: int|
                high <= i < quantiles@.len() ==> !(#[trigger] quantiles@[i]).numeric_le(value),
        decreases high - low,
    {
        let middle: usize = low + (high - low) / 2;
        if quantiles[middle].at_most(&value) {
            assert forall|i: int|
                is_partitioned(quantiles@, value) && 0 <= i < middle + 1 implies (
            #[trigger] quantiles@[i]).numeric_le(value) by {
                if i < middle {
                    assert(quantiles@[middle as int].numeric_le(value));
                }
            }
            low = middle + 1;
        } else {
            assert forall|i: int|
                is_partitioned(quantiles@, value) && middle <= i < quantiles@.len() implies !(
            #[trigger] quantiles@[i]).numeric_le(value) by {
                if i > middle && quantiles@[i].numeric_le(value) {
                    assert(quantiles@[middle as int].numeric_le(value));
                }
            }
            high = middle;
        }
    }
    proof {
        if is_partitioned(quantiles@, value) {
            lemma_count_partitioned(quantiles@, value, low as int, quantiles@.len());
        }
    }
    Rank {
        position: if low == 0 {
            0
        } else {
            low - 1
        },
        last: quantiles.len() - 1,
    }
}

/// Whether no value is a NaN.
pub open spec fn all_numbers(values: Seq<F32>) -> bool {
    forall|i: int| 0 <= i < values.len() ==> !(#[trigger] values[i]).nan()
}

/// Quantiles that are numbers are partitioned by every value.
pub proof fn law_number_quantiles_are_partitioned(quantiles: Seq<F32>, value: F32)
    requires
        strictly_ordered(quantiles),
        all_numbers(quantiles),
    ensures
        is_partitioned(quantiles, value),
{
    assert forall|i: int, j: int|
        0 <= i < j < quantiles.len() && (#[trigger] quantiles[j]).numeric_le(value) implies (
    #[trigger] quantiles[i]).numeric_le(value) by {
        assert(quantiles[i].total_key() < quantiles[j].total_key());
        assert(!quantiles[i].nan());
    }
}

/// A greater value never ranks lower.
pub proof fn law_ranks_are_monotone(quantiles: Seq<F32>, low: F32, high: F32)
    requires
        low.numeric_le(high),
        quantiles.len() <= usize::MAX,
    ensures
        rank_of(quantiles, low).position <= rank_of(quantiles, high).position,
        rank_of(quantiles, high).position <= rank_of(quantiles, high).last,
{
    lemma_count_monotone(quantiles, low, high, quantiles.len());
}

proof fn lemma_count_monotone(quantiles: Seq<F32>, low: F32, high: F32, count: nat)
    requires
        low.numeric_le(high),
    ensures
        count_at_most(quantiles, low, count) <= count_at_most(quantiles, high, count) <= count,
    decreases count,
{
    if count > 0 {
        lemma_count_monotone(quantiles, low, high, (count - 1) as nat);
    }
}

impl Normalizer {
    /// The rank of a raw difficulty in each dimension, as `rank` gives it.
    pub fn transform(&self, raw: DifficultyVector) -> (ranks: [Rank; 5])
        ensures
            forall|d: int|
                0 <= d < 5 && is_partitioned(self.quantiles@[d]@, raw.dimensions()[d])
                    ==> #[trigger] ranks@[d] == rank_of(self.quantiles@[d]@, raw.dimensions()[d]),
            forall|d: int| 0 <= d < 5 ==> (#[trigger] ranks@[d]).position <= ranks@[d].last,
    {
        let values: [F32; 5] = raw.as_array();
        let ranks: [Rank; 5] = [
            rank(&self.quantiles[0], values[0]),
            rank(&self.quantiles[1], values[1]),
            rank(&self.quantiles[2], values[2]),
            rank(&self.quantiles[3], values[3]),
            rank(&self.quantiles[4], values[4]),
        ];
        ranks
    }
}

/// The normalized record of a raw record, whose normalized difficulty is `difficulty`.
pub fn normalized_record(
    raw: &RawFeatureRecord,
    difficulty: DifficultyVector,
    version: u32,
) -> (record: BeatmapFeatureRecord)
    ensures
        record == (BeatmapFeatureRecord {
            beatmap_id: raw.beatmap_id,
            beatmapset_id: raw.beatmapset_id,
            difficulty,
            base: raw.base,
            overlap: raw.overlap,
            analyzer_version: raw.analyzer_version,
            normalization_version: version,
            mod_profile: raw.mod_profile,
            flags: 0,
        }),
{
    BeatmapFeatureRecord {
        beatmap_id: raw.beatmap_id,
        beatmapset_id: raw.beatmapset_id,
        difficulty,
        base: raw.base,
        overlap: raw.overlap,
        analyzer_version: raw.analyzer_version,
        normalization_version: version,
        mod_profile: raw.mod_profile,
        flags: 0,
    }
}

/// The name of the file that holds the normalizer of a version.
pub fn normalizer_file(version: u32) -> (name: String)
    ensures
        name@ == "v"@ + crate::text::decimal(version as nat) + ".bin"@,
{
    let mut text: Vec<char> = Vec::new();
    push_text(&mut text, "v");
    push_decimal(&mut text, version as u64);
    push_text(&mut text, ".bin");
    assert(text@ =~= "v"@ + crate::text::decimal(version as nat) + ".bin"@);
    string_of(text.as_slice())
}

// What fitting and ranking give

proof fn lemma_column_contains(records: Seq<RawFeatureRecord>, dimension: int, value: F32)
    requires
        0 <= dimension < 5,
    ensures
        column(records, dimension).contains(value) <==> exists|r: int|
            0 <= r < records.len() && (
            #[trigger] records[r]).raw_difficulty.dimensions()[dimension] == value,
{
    let values = column(records, dimension);
    if values.contains(value) {
        let r = choose|r: int| 0 <= r < values.len() && values[r] == value;
        assert(records[r].raw_difficulty.dimensions()[dimension] == value);
    }
    if exists|r: int|
        0 <= r < records.len() && (#[trigger] records[r]).raw_difficulty.dimensions()[dimension]
            == value {
        let r = choose|r: int|
            0 <= r < records.len() && (
            #[trigger] records[r]).raw_difficulty.dimensions()[dimension] == value;
        assert(values[r] == value);
    }
}

/// The quantiles of each dimension of a fitted normalizer are exactly the values that the raw
/// records have in that dimension, by its name: each of them once, in the total order, and
/// nothing else.
pub proof fn law_quantiles_are_the_values_of_their_dimension(
    normalizer: Normalizer,
    records: Seq<RawFeatureRecord>,
)
    requires
        forall|d: int|
            0 <= d < 5 ==> are_quantiles(
                (#[trigger] normalizer.quantiles@[d])@,
                column(records, d),
            ),
    ensures
        forall|value: F32| #[trigger]
            normalizer.quantiles@[0]@.contains(value) <==> exists|r: int|
                0 <= r < records.len() && (#[trigger] records[r]).raw_difficulty.aim == value,
        forall|value: F32| #[trigger]
            normalizer.quantiles@[1]@.contains(value) <==> exists|r: int|
                0 <= r < records.len() && (#[trigger] records[r]).raw_difficulty.speed == value,
        forall|value: F32| #[trigger]
            normalizer.quantiles@[2]@.contains(value) <==> exists|r: int|
                0 <= r < records.len() && (#[trigger] records[r]).raw_difficulty.reading == value,
        forall|value: F32| #[trigger]
            normalizer.quantiles@[3]@.contains(value) <==> exists|r: int|
                0 <= r < records.len() && (#[trigger] records[r]).raw_difficulty.slider == value,
        forall|value: F32| #[trigger]
            normalizer.quantiles@[4]@.contains(value) <==> exists|r: int|
                0 <= r < records.len() && (#[trigger] records[r]).raw_difficulty.overlap == value,
        forall|d: int, i: int, j: int|
            0 <= d < 5 && 0 <= i < j < normalizer.quantiles@[d]@.len() ==> (
            #[trigger] normalizer.quantiles@[d]@[i]).total_key() < (
            #[trigger] normalizer.quantiles@[d]@[j]).total_key(),
{
    assert forall|value: F32| #[trigger] normalizer.quantiles@[0]@.contains(value) <==> exists|
        r: int,
    |
        0 <= r < records.len() && (#[trigger] records[r]).raw_difficulty.aim == value by {
        lemma_column_contains(records, 0, value);
        assert(are_quantiles(normalizer.quantiles@[0]@, column(records, 0)));
        if exists|r: int|
            0 <= r < records.len() && (#[trigger] records[r]).raw_difficulty.aim == value {
            let r = choose|r: int|
                0 <= r < records.len() && (#[trigger] records[r]).raw_difficulty.aim == value;
            assert(records[r].raw_difficulty.dimensions()[0] == value);
        }
    }
    assert forall|value: F32| #[trigger] normalizer.quantiles@[1]@.contains(value) <==> exists|
        r: int,
    |
        0 <= r < records.len() && (#[trigger] records[r]).raw_difficulty.speed == value by {
        lemma_column_contains(records, 1, value);
        assert(are_quantiles(normalizer.quantiles@[1]@, column(records, 1)));
        if exists|r: int|
            0 <= r < records.len() && (#[trigger] records[r]).raw_difficulty.speed == value {
            let r = choose|r: int|
                0 <= r < records.len() && (#[trigger] records[r]).raw_difficulty.speed == value;
            assert(records[r].raw_difficulty.dimensions()[1] == value);
        }
    }
    assert forall|value: F32| #[trigger] normalizer.quantiles@[2]@.contains(value) <==> exists|
        r: int,
    |
        0 <= r < records.len() && (#[trigger] records[r]).raw_difficulty.reading == value by {
        lemma_column_contains(records, 2, value);
        assert(are_quantiles(normalizer.quantiles@[2]@, column(records, 2)));
        if exists|r: int|
            0 <= r < records.len() && (#[trigger] records[r]).raw_difficulty.reading == value {
            let r = choose|r: int|
                0 <= r < records.len() && (#[trigger] records[r]).raw_difficulty.reading == value;
            assert(records[r].raw_difficulty.dimensions()[2] == value);
        }
    }
    assert forall|value: F32| #[trigger] normalizer.quantiles@[3]@.contains(value) <==> exists|
        r: int,
    |
        0 <= r < records.len() && (#[trigger] records[r]).raw_difficulty.slider == value by {
        lemma_column_contains(records, 3, value);
        assert(are_quantiles(normalizer.quantiles@[3]@, column(records, 3)));
        if exists|r: int|
            0 <= r < records.len() && (#[trigger] records[r]).raw_difficulty.slider == value {
            let r = choose|r: int|
                0 <= r < records.len() && (#[trigger] records[r]).raw_difficulty.slider == value;
            assert(records[r].raw_difficulty.dimensions()[3] == value);
        }
    }
    assert forall|value: F32| #[trigger] normalizer.quantiles@[4]@.contains(value) <==> exists|
        r: int,
    |
        0 <= r < records.len() && (#[trigger] records[r]).raw_difficulty.overlap == value by {
        lemma_column_contains(records, 4, value);
        assert(are_quantiles(normalizer.quantiles@[4]@, column(records, 4)));
        if exists|r: int|
            0 <= r < records.len() && (#[trigger] records[r]).raw_difficulty.overlap == value {
            let r = choose|r: int|
                0 <= r < records.len() && (#[trigger] records[r]).raw_difficulty.overlap == value;
            assert(records[r].raw_difficulty.dimensions()[4] == value);
        }
    }
    assert forall|d: int, i: int, j: int|
        0 <= d < 5 && 0 <= i < j < normalizer.quantiles@[d]@.len() implies (
    #[trigger] normalizer.quantiles@[d]@[i]).total_key() < (
    #[trigger] normalizer.quantiles@[d]@[j]).total_key() by {
        assert(are_quantiles(normalizer.quantiles@[d]@, column(records, d)));
    }
}

proof fn lemma_count_is_filter(quantiles: Seq<F32>, value: F32, count: nat)
    requires
        count <= quantiles.len(),
    ensures
        count_at_most(quantiles, value, count) == quantiles.take(count as int).filter(
            |quantile: F32| quantile.numeric_le(value),
        ).len(),
    decreases count,
{
    reveal(Seq::filter);
    if count > 0 {
        lemma_count_is_filter(quantiles, value, (count - 1) as nat);
        assert(quantiles.take(count as int).drop_last() =~= quantiles.take(count - 1));
    }
}

/// Where a value ranks: at the last of the quantiles that are at most as great, or at the first
/// if none is. Among at most one quantile everything ranks at zero.
pub proof fn law_ranks_count_the_quantiles_reached(quantiles: Seq<F32>, value: F32)
    requires
        quantiles.len() <= usize::MAX,
    ensures
        ({
            let reached = quantiles.filter(
                |quantile: F32| quantile.numeric_le(value),
            ).len() as int;
            let rank = rank_of(quantiles, value);
            if quantiles.len() <= 1 {
                rank.position == 0 && rank.last == 0
            } else {
                &&& rank.last == quantiles.len() - 1
                &&& reached > 0 ==> rank.position == reached - 1
                &&& reached == 0 ==> rank.position == 0
            }
        }),
{
    assert(quantiles.take(quantiles.len() as int) =~= quantiles);
    lemma_count_is_filter(quantiles, value, quantiles.len());
    quantiles.lemma_filter_len(|quantile: F32| quantile.numeric_le(value));
}

proof fn lemma_all_reached(quantiles: Seq<F32>, value: F32, count: nat)
    requires
        count <= quantiles.len(),
        forall|k: int| 0 <= k < count ==> (#[trigger] quantiles[k]).numeric_le(value),
    ensures
        count_at_most(quantiles, value, count) == count,
    decreases count,
{
    if count > 0 {
        lemma_all_reached(quantiles, value, (count - 1) as nat);
    }
}

proof fn lemma_one_reached(quantiles: Seq<F32>, value: F32, at: int, count: nat)
    requires
        count <= quantiles.len(),
        forall|k: int| 0 <= k < count && k != at ==> !(#[trigger] quantiles[k]).numeric_le(value),
    ensures
        count_at_most(quantiles, value, count) <= 1,
    decreases count,
{
    if count > 0 {
        if at == count - 1 {
            lemma_none_reached(quantiles, value, (count - 1) as nat);
        } else {
            lemma_one_reached(quantiles, value, at, (count - 1) as nat);
        }
    }
}

proof fn lemma_none_reached(quantiles: Seq<F32>, value: F32, count: nat)
    requires
        count <= quantiles.len(),
        forall|k: int| 0 <= k < count ==> !(#[trigger] quantiles[k]).numeric_le(value),
    ensures
        count_at_most(quantiles, value, count) == 0,
    decreases count,
{
    if count > 0 {
        lemma_none_reached(quantiles, value, (count - 1) as nat);
    }
}

/// A raw record whose value in a dimension is reached by no other value of that dimension ranks
/// first in it, and one whose value reaches all of them ranks last.
pub proof fn law_extreme_raw_records_rank_at_the_ends(
    normalizer: Normalizer,
    records: Seq<RawFeatureRecord>,
    d: int,
    r: int,
)
    requires
        0 <= d < 5,
        0 <= r < records.len(),
        are_quantiles(normalizer.quantiles@[d]@, column(records, d)),
        normalizer.quantiles@[d]@.len() <= usize::MAX,
    ensures
        ({
            let own = records[r].raw_difficulty.dimensions()[d];
            let rank = rank_of(normalizer.quantiles@[d]@, own);
            &&& (forall|q: int|
                0 <= q < records.len() ==> records[q].raw_difficulty.dimensions()[d] == own || !(
                #[trigger] records[q]).raw_difficulty.dimensions()[d].numeric_le(own))
                ==> rank.position == 0
            &&& (forall|q: int|
                0 <= q < records.len() ==> (
                #[trigger] records[q]).raw_difficulty.dimensions()[d].numeric_le(own))
                ==> rank.position == rank.last
        }),
{
    let own = records[r].raw_difficulty.dimensions()[d];
    let quantiles = normalizer.quantiles@[d]@;
    let values = column(records, d);
    assert(values[r] == own);
    assert(values.contains(own));
    assert(quantiles.contains(own));
    let at = choose|at: int| 0 <= at < quantiles.len() && quantiles[at] == own;
    lemma_count_monotone_bound(quantiles, own, quantiles.len());
    assert forall|k: int| 0 <= k < quantiles.len() implies exists|q: int|
        0 <= q < records.len() && (#[trigger] records[q]).raw_difficulty.dimensions()[d]
            == #[trigger] quantiles[k] by {
        assert(quantiles.contains(quantiles[k]));
        let q = choose|q: int| 0 <= q < values.len() && values[q] == quantiles[k];
        assert(records[q].raw_difficulty.dimensions()[d] == quantiles[k]);
    }
    if forall|q: int|
        0 <= q < records.len() ==> records[q].raw_difficulty.dimensions()[d] == own || !(
        #[trigger] records[q]).raw_difficulty.dimensions()[d].numeric_le(own) {
        assert forall|j: int| 0 <= j < quantiles.len() && j != at implies !(
        #[trigger] quantiles[j]).numeric_le(own) by {
            let q = choose|q: int|
                0 <= q < records.len() && (#[trigger] records[q]).raw_difficulty.dimensions()[d]
                    == quantiles[j];
            assert(records[q].raw_difficulty.dimensions()[d] == own
                || !records[q].raw_difficulty.dimensions()[d].numeric_le(own));
            if j < at {
                assert(quantiles[j].total_key() < quantiles[at].total_key());
            } else {
                assert(quantiles[at].total_key() < quantiles[j].total_key());
            }
        }
        lemma_one_reached(quantiles, own, at, quantiles.len());
    }
    if forall|q: int|
        0 <= q < records.len() ==> (
        #[trigger] records[q]).raw_difficulty.dimensions()[d].numeric_le(own) {
        assert forall|k: int| 0 <= k < quantiles.len() implies (
        #[trigger] quantiles[k]).numeric_le(own) by {
            let q = choose|q: int|
                0 <= q < records.len() && (#[trigger] records[q]).raw_difficulty.dimensions()[d]
                    == quantiles[k];
            assert(records[q].raw_difficulty.dimensions()[d].numeric_le(own));
        }
        lemma_all_reached(quantiles, own, quantiles.len());
    }
}

proof fn lemma_count_monotone_bound(quantiles: Seq<F32>, value: F32, count: nat)
    ensures
        count_at_most(quantiles, value, count) <= count,
    decreases count,
{
    if count > 0 {
        lemma_count_monotone_bound(quantiles, value, (count - 1) as nat);
    }
}

/// A normalizer can be fitted under a positive version whenever raw records can be read and there
/// is at least one.
pub proof fn law_fitting_needs_raw_records(store: FeatureStore, version: u32)
    ensures
        fit_refusal(store, version) is None <==> version > 0 && (crate::store::raw_outcome(
            store.tables,
        ) matches Ok(records) && records.len() > 0),
{
}

} // verus!
