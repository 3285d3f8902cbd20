//! The bucket index of the osu!mania dataset.
//!
//! Records are grouped by key count and difficulty band. A query widens its search from the
//! target's own band outwards until it has gathered enough candidates, and ranks those.

use std::collections::BTreeMap;

use vstd::prelude::*;

use crate::float_bits::F32;
use crate::mania::{
    ManiaBeatmapMetadata, ManiaFeatureRecord, ManiaFeatureStore, ManiaModeFamily, ManiaNormalizedRow,
    ManiaPattern, MANIA_ANALYZER_VERSION,
};
use crate::ordered::keys64;
use crate::sorting::{order_of, RankKey};
use crate::text::{push_decimal, push_text, string_of};

verus! {

broadcast use vstd::std_specs::btree::group_btree_axioms;

#[derive(Clone, Copy, Debug, PartialEq, Eq, Structural)]
pub struct ManiaBucketEntry {
    pub beatmap_id: u64,
    pub beatmapset_id: u64,
    pub mode_family: ManiaModeFamily,
    pub normalized_offset: u64,
}

#[derive(Clone, Debug)]
pub struct ManiaBucket {
    pub key_count: u8,
    pub difficulty_band: u8,
    pub entries: Vec<ManiaBucketEntry>,
}

#[derive(Clone, Debug)]
pub struct ManiaBucketIndex {
    pub normalization_version: u32,
    pub analyzer_version: u32,
    pub buckets: Vec<ManiaBucket>,
}

#[derive(Clone, Copy, Debug, PartialEq, Eq, Structural)]
pub enum ManiaIndexError {
    Empty,
    DatasetVersion,
    DuplicateBeatmap { beatmap_id: u64 },
    Coverage,
    ActiveVersion,
    ResultLimit,
    TargetVersion,
    UnknownTarget { beatmap_id: u64 },
    MissingRecord { offset: u64 },
    EntryMismatch { beatmap_id: u64 },
    UnknownMetadata { beatmap_id: u64 },
}

impl ManiaIndexError {
    pub open spec fn text(self) -> Seq<char> {
        match self {
            ManiaIndexError::Empty => "cannot build an empty mania index"@,
            ManiaIndexError::DatasetVersion =>
                "mania bucket index version does not match the dataset"@,
            ManiaIndexError::DuplicateBeatmap { beatmap_id } => "mania beatmap "@
                + crate::text::decimal(beatmap_id as nat) + " occurs in more than one bucket"@,
            ManiaIndexError::Coverage =>
                "mania bucket index records do not match normalized records"@,
            ManiaIndexError::ActiveVersion =>
                "mania bucket index version does not match the active dataset"@,
            ManiaIndexError::ResultLimit => "mania query limit must be between 1 and 100"@,
            ManiaIndexError::TargetVersion =>
                "mania query target version does not match the index"@,
            ManiaIndexError::UnknownTarget { beatmap_id } => "unknown normalized mania beatmap "@
                + crate::text::decimal(beatmap_id as nat),
            ManiaIndexError::MissingRecord { offset } => "no normalized mania record at offset "@
                + crate::text::decimal(offset as nat),
            ManiaIndexError::EntryMismatch { beatmap_id } => "mania index entry "@
                + crate::text::decimal(beatmap_id as nat)
                + " does not match its normalized record"@,
            ManiaIndexError::UnknownMetadata { beatmap_id } => "unknown metadata of mania beatmap "@
                + crate::text::decimal(beatmap_id as nat),
        }
    }

    /// The error in words.
    pub fn message(&self) -> (message: String)
        ensures
            message@ == self.text(),
    {
        let mut text: Vec<char> = Vec::new();
        match self {
            ManiaIndexError::Empty => push_text(&mut text, "cannot build an empty mania index"),
            ManiaIndexError::DatasetVersion => push_text(
                &mut text,
                "mania bucket index version does not match the dataset",
            ),
            ManiaIndexError::DuplicateBeatmap { beatmap_id } => {
                push_text(&mut text, "mania beatmap ");
                push_decimal(&mut text, *beatmap_id);
                push_text(&mut text, " occurs in more than one bucket");
            },
            ManiaIndexError::Coverage => push_text(
                &mut text,
                "mania bucket index records do not match normalized records",
            ),
            ManiaIndexError::ActiveVersion => push_text(
                &mut text,
                "mania bucket index version does not match the active dataset",
            ),
            ManiaIndexError::ResultLimit => push_text(
                &mut text,
                "mania query limit must be between 1 and 100",
            ),
            ManiaIndexError::TargetVersion => push_text(
                &mut text,
                "mania query target version does not match the index",
            ),
            ManiaIndexError::UnknownTarget { beatmap_id } => {
                push_text(&mut text, "unknown normalized mania beatmap ");
                push_decimal(&mut text, *beatmap_id);
            },
            ManiaIndexError::MissingRecord { offset } => {
                push_text(&mut text, "no normalized mania record at offset ");
                push_decimal(&mut text, *offset);
            },
            ManiaIndexError::EntryMismatch { beatmap_id } => {
                push_text(&mut text, "mania index entry ");
                push_decimal(&mut text, *beatmap_id);
                push_text(&mut text, " does not match its normalized record");
            },
            ManiaIndexError::UnknownMetadata { beatmap_id } => {
                push_text(&mut text, "unknown metadata of mania beatmap ");
                push_decimal(&mut text, *beatmap_id);
            },
        }
        assert(text@ =~= self.text());
        string_of(text.as_slice())
    }
}

// Building

/// The rows that belong in one bucket, in order.
pub open spec fn bucket_rows(
    rows: Seq<ManiaNormalizedRow>,
    key_count: u8,
    band: u8,
) -> Seq<ManiaNormalizedRow>
    decreases rows.len(),
{
    if rows.len() == 0 {
        rows
    } else {
        let front = bucket_rows(rows.drop_last(), key_count, band);
        if rows.last().record.key_count == key_count && rows.last().record.difficulty_band == band {
            front.push(rows.last())
        } else {
            front
        }
    }
}

/// What a bucket keeps of a row.
pub open spec fn entry_of(row: ManiaNormalizedRow) -> ManiaBucketEntry {
    ManiaBucketEntry {
        beatmap_id: row.record.beatmap_id,
        beatmapset_id: row.record.beatmapset_id,
        mode_family: row.record.mode_family,
        normalized_offset: row.offset,
    }
}

/// The keys by which a bucket is sorted: the percentile, then the beatmap's identifier.
pub open spec fn row_keys(rows: Seq<ManiaNormalizedRow>) -> Seq<Seq<int>> {
    Seq::new(
        rows.len(),
        |i: int|
            crate::sorting::rank_key(
                rows[i].record.difficulty_percentile,
                rows[i].record.beatmap_id,
            ),
    )
}

/// The entries of one bucket: what it keeps of its rows, sorted.
pub open spec fn bucket_entries(
    rows: Seq<ManiaNormalizedRow>,
    key_count: u8,
    band: u8,
) -> Seq<ManiaBucketEntry> {
    let members = bucket_rows(rows, key_count, band);
    let sorted = crate::sorting::sorted_by(members, row_keys(members));
    Seq::new(sorted.len(), |i: int| entry_of(sorted[i]))
}

/// The rank of a bucket among all buckets: by key count, then by band.
pub open spec fn bucket_code(key_count: u8, band: u8) -> int {
    key_count * 256 + band
}

/// Whether `buckets` are exactly the non-empty buckets of `rows`, in increasing order.
pub open spec fn buckets_of(rows: Seq<ManiaNormalizedRow>, buckets: Seq<ManiaBucket>) -> bool {
    &&& forall|i: int, j: int|
        0 <= i < j < buckets.len() ==> bucket_code(
            (#[trigger] buckets[i]).key_count,
            buckets[i].difficulty_band,
        ) < bucket_code((#[trigger] buckets[j]).key_count, buckets[j].difficulty_band)
    &&& forall|i: int|
        0 <= i < buckets.len() ==> (#[trigger] buckets[i]).entries@ == bucket_entries(
            rows,
            buckets[i].key_count,
            buckets[i].difficulty_band,
        ) && buckets[i].entries@.len() > 0
    &&& forall|i: int|
        0 <= i < rows.len() ==> has_bucket(
            buckets,
            (#[trigger] rows[i]).record.key_count,
            rows[i].record.difficulty_band,
        )
}

/// Whether one of `buckets` is for the given key count and band.
pub open spec fn has_bucket(buckets: Seq<ManiaBucket>, key_count: u8, band: u8) -> bool {
    exists|b: int|
        0 <= b < buckets.len() && (#[trigger] buckets[b]).key_count == key_count
            && buckets[b].difficulty_band == band
}

/// Whether `groups` holds the members of every non-empty bucket of `rows`.
spec fn groups_rows(
    groups: Map<u64, Vec<ManiaNormalizedRow>>,
    rows: Seq<ManiaNormalizedRow>,
) -> bool {
    &&& forall|code: u64| #[trigger] groups.contains_key(code) ==> code < 65536
    &&& forall|key_count: u8, band: u8|
        {
            let members = #[trigger] bucket_rows(rows, key_count, band);
            let code = bucket_code(key_count, band) as u64;
            &&& groups.contains_key(code) == (members.len() > 0)
            &&& groups.contains_key(code) ==> groups[code]@ == members
        }
}

/// Groups `rows` by bucket.
fn grouped(rows: &Vec<ManiaNormalizedRow>) -> (groups: BTreeMap<u64, Vec<ManiaNormalizedRow>>)
    ensures
        groups_rows(groups@, rows@),
{
    let mut groups: BTreeMap<u64, Vec<ManiaNormalizedRow>> = BTreeMap::new();
    let mut i: usize = 0;
    assert(rows@.take(0) =~= seq![]);
    while i < rows.len()
        invariant
            i <= rows@.len(),
            groups_rows(groups@, rows@.take(i as int)),
        decreases rows@.len() - i,
    {
        let row: ManiaNormalizedRow = rows[i];
        let code: u64 = (row.record.key_count as u64) * 256 + row.record.difficulty_band as u64;
        let ghost before = groups@;
        let mut members: Vec<ManiaNormalizedRow> = match groups.remove(&code) {
            Some(members) => members,
            None => Vec::new(),
        };
        members.push(row);
        groups.insert(code, members);
        proof {
            let earlier = rows@.take(i as int);
            let now = rows@.take(i + 1);
            assert(now.drop_last() =~= earlier);
            assert forall|key_count: u8, band: u8|
                {
                    let all = #[trigger] bucket_rows(now, key_count, band);
                    let place = bucket_code(key_count, band) as u64;
                    &&& groups@.contains_key(place) == (all.len() > 0)
                    &&& groups@.contains_key(place) ==> groups@[place]@ == all
                } by {
                let place = bucket_code(key_count, band) as u64;
                let seen = bucket_rows(earlier, key_count, band);
                assert(before.contains_key(place) == (seen.len() > 0));
                if place == code {
                    assert(key_count == row.record.key_count);
                    assert(band == row.record.difficulty_band);
                    if seen.len() == 0 {
                        assert(seen =~= seq![]);
                    }
                    assert(groups@[place]@ == seen.push(row));
                } else {
                    assert(groups@.contains_key(place) == before.contains_key(place));
                }
            }
        }
        i = i + 1;
    }
    assert(rows@.take(rows@.len() as int) =~= rows@);
    groups
}

/// The sorted entries of one bucket.
fn entries_in_order(members: &Vec<ManiaNormalizedRow>) -> (entries: Vec<ManiaBucketEntry>)
    ensures
        ({
            let sorted = crate::sorting::sorted_by(members@, row_keys(members@));
            entries@ == Seq::new(sorted.len(), |i: int| entry_of(sorted[i]))
        }),
{
    let mut keys: Vec<RankKey> = Vec::new();
    let mut i: usize = 0;
    while i < members.len()
        invariant
            i <= members@.len(),
            keys@.len() == i,
            forall|k: int|
                0 <= k < i ==> (#[trigger] keys@[k]).value
                    == members@[k].record.difficulty_percentile && keys@[k].id
                    == members@[k].record.beatmap_id,
        decreases members@.len() - i,
    {
        keys.push(
            RankKey {
                value: members[i].record.difficulty_percentile,
                id: members[i].record.beatmap_id,
            },
        );
        i = i + 1;
    }
    assert(crate::sorting::keys_of(keys@) =~= row_keys(members@));
    let order: Vec<usize> = order_of(&keys);
    let mut entries: Vec<ManiaBucketEntry> = Vec::new();
    let mut k: usize = 0;
    while k < order.len()
        invariant
            k <= order@.len(),
            order@.len() == members@.len(),
            forall|j: int| 0 <= j < order@.len() ==> #[trigger] order@[j] < members@.len(),
            entries@.len() == k,
            forall|j: int| 0 <= j < k ==> entries@[j] == entry_of(members@[order@[j] as int]),
        decreases order@.len() - k,
    {
        let row: &ManiaNormalizedRow = &members[order[k]];
        entries.push(
            ManiaBucketEntry {
                beatmap_id: row.record.beatmap_id,
                beatmapset_id: row.record.beatmapset_id,
                mode_family: row.record.mode_family,
                normalized_offset: row.offset,
            },
        );
        k = k + 1;
    }
    proof {
        let stable = crate::sorting::stable_order(row_keys(members@));
        let sorted = crate::sorting::sorted_by(members@, row_keys(members@));
        assert(stable.len() == order@.len());
        assert forall|j: int| 0 <= j < order@.len() implies entries@[j] == entry_of(sorted[j]) by {
            assert(stable[j] == crate::sorting::positions(order@)[j]);
        }
        assert(entries@ =~= Seq::new(sorted.len(), |i: int| entry_of(sorted[i])));
    }
    entries
}

/// Whether `index` is the bucket index of `rows`.
pub open spec fn indexes(
    rows: Seq<ManiaNormalizedRow>,
    version: u32,
    index: ManiaBucketIndex,
) -> bool {
    &&& index.normalization_version == version
    &&& index.analyzer_version == MANIA_ANALYZER_VERSION
    &&& buckets_of(rows, index.buckets@)
}

/// Builds the bucket index of the records of one normalization version, and checks that it
/// covers them: a beatmap that has two records is refused.
pub fn build_mania_index(store: &ManiaFeatureStore, version: u32) -> (outcome: Result<
    ManiaBucketIndex,
    ManiaIndexError,
>)
    ensures
        ({
            let rows = crate::mania::rows_of(store.rows@, version);
            match outcome {
                Ok(index) => {
                    &&& rows.len() > 0
                    &&& distinct_beatmaps(rows)
                    &&& indexes(rows, version, index)
                    &&& coverage(rows, version, index) is Ok
                },
                Err(error) => if rows.len() == 0 {
                    error == ManiaIndexError::Empty
                } else {
                    &&& !distinct_beatmaps(rows)
                    &&& exists|index: ManiaBucketIndex| #[trigger]
                        indexes(rows, version, index) && coverage(rows, version, index) == Err::<
                            (),
                            ManiaIndexError,
                        >(error)
                },
            }
        }),
{
    let rows: Vec<ManiaNormalizedRow> = store.normalized_records_with_offsets(version);
    if rows.len() == 0 {
        return Err(ManiaIndexError::Empty);
    }
    let index: ManiaBucketIndex = index_of_rows(&rows, version);
    proof {
        law_built_index_covers_its_dataset(rows@, version, index);
    }
    match validate_mania_index_coverage(store, version, &index) {
        Ok(_) => Ok(index),
        Err(error) => Err(error),
    }
}

/// The bucket index of rows.
fn index_of_rows(rows: &Vec<ManiaNormalizedRow>, version: u32) -> (index: ManiaBucketIndex)
    ensures
        indexes(rows@, version, index),
{
    let groups: BTreeMap<u64, Vec<ManiaNormalizedRow>> = grouped(rows);
    let codes: Vec<u64> = keys64(&groups);
    proof {
        crate::ordered::lemma_increasing_lists(crate::ordered::ints64(groups@.dom()));
    }
    let ghost listed = crate::ordered::list64(codes@);
    let mut buckets: Vec<ManiaBucket> = Vec::new();
    let mut i: usize = 0;
    while i < codes.len()
        invariant
            i <= codes@.len(),
            groups_rows(groups@, rows@),
            forall|k: int| 0 <= k < codes@.len() ==> groups@.contains_key(#[trigger] codes@[k]),
            buckets@.len() == i,
            forall|k: int|
                0 <= k < i ==> bucket_code(
                    (#[trigger] buckets@[k]).key_count,
                    buckets@[k].difficulty_band,
                ) == codes@[k] && buckets@[k].entries@ == bucket_entries(
                    rows@,
                    buckets@[k].key_count,
                    buckets@[k].difficulty_band,
                ) && buckets@[k].entries@.len() > 0,
        decreases codes@.len() - i,
    {
        let code: u64 = codes[i];
        assert(groups@.contains_key(codes@[i as int]));
        let key_count: u8 = (code / 256) as u8;
        let difficulty_band: u8 = (code % 256) as u8;
        assert(bucket_code(key_count, difficulty_band) == code);
        proof {
            let members = bucket_rows(rows@, key_count, difficulty_band);
            assert(groups@.contains_key(code) == (members.len() > 0));
            crate::sorting::lemma_stable_order(row_keys(members));
        }
        if let Some(members) = groups.get(&code) {
            let entries: Vec<ManiaBucketEntry> = entries_in_order(members);
            buckets.push(ManiaBucket { key_count, difficulty_band, entries });
        }
        i = i + 1;
    }
    proof {
        assert forall|a: int, b: int| 0 <= a < b < buckets@.len() implies bucket_code(
            (#[trigger] buckets@[a]).key_count,
            buckets@[a].difficulty_band,
        ) < bucket_code((#[trigger] buckets@[b]).key_count, buckets@[b].difficulty_band) by {
            assert(listed[a] < listed[b]);
        }
        assert forall|r: int| 0 <= r < rows@.len() implies has_bucket(
            buckets@,
            (#[trigger] rows@[r]).record.key_count,
            rows@[r].record.difficulty_band,
        ) by {
            let key_count = rows@[r].record.key_count;
            let band = rows@[r].record.difficulty_band;
            lemma_bucket_rows_contain(rows@, r);
            let code = bucket_code(key_count, band) as u64;
            assert(groups@.contains_key(code));
            assert(crate::ordered::ints64(groups@.dom()).contains(code as int));
            assert(listed.contains(code as int));
            let b = choose|b: int| 0 <= b < listed.len() && listed[b] == code;
            assert(buckets@[b].key_count == key_count && buckets@[b].difficulty_band == band);
        }
    }
    ManiaBucketIndex {
        normalization_version: version,
        analyzer_version: MANIA_ANALYZER_VERSION,
        buckets,
    }
}

proof fn lemma_bucket_rows_contain(rows: Seq<ManiaNormalizedRow>, r: int)
    requires
        0 <= r < rows.len(),
    ensures
        bucket_rows(rows, rows[r].record.key_count, rows[r].record.difficulty_band).contains(
            rows[r],
        ),
    decreases rows.len(),
{
    let key_count = rows[r].record.key_count;
    let band = rows[r].record.difficulty_band;
    let members = bucket_rows(rows, key_count, band);
    if r == rows.len() - 1 {
        assert(members.last() == rows[r]);
    } else {
        let front = bucket_rows(rows.drop_last(), key_count, band);
        lemma_bucket_rows_contain(rows.drop_last(), r);
        let p = choose|p: int| 0 <= p < front.len() && front[p] == rows[r];
        assert(members[p] == rows[r]);
    }
}

// Coverage

/// Where an index puts a beatmap, and what it keeps of it.
#[derive(Clone, Copy, Debug, PartialEq, Eq, Structural)]
pub struct ManiaPlacement {
    pub key_count: u8,
    pub difficulty_band: u8,
    pub beatmapset_id: u64,
    pub mode_family: ManiaModeFamily,
    pub normalized_offset: u64,
}

/// Where a row belongs.
pub open spec fn row_placement(row: ManiaNormalizedRow) -> ManiaPlacement {
    ManiaPlacement {
        key_count: row.record.key_count,
        difficulty_band: row.record.difficulty_band,
        beatmapset_id: row.record.beatmapset_id,
        mode_family: row.record.mode_family,
        normalized_offset: row.offset,
    }
}

/// Where the beatmaps of `rows` belong. Of several rows for one beatmap the last counts.
pub open spec fn row_placements(rows: Seq<ManiaNormalizedRow>) -> Map<u64, ManiaPlacement>
    decreases rows.len(),
{
    if rows.len() == 0 {
        Map::empty()
    } else {
        row_placements(rows.drop_last()).insert(
            rows.last().record.beatmap_id,
            row_placement(rows.last()),
        )
    }
}

/// Where a bucket puts its entries, in order.
pub open spec fn bucket_placements(bucket: ManiaBucket) -> Seq<(u64, ManiaPlacement)> {
    Seq::new(
        bucket.entries@.len(),
        |i: int|
            (
                bucket.entries@[i].beatmap_id,
                ManiaPlacement {
                    key_count: bucket.key_count,
                    difficulty_band: bucket.difficulty_band,
                    beatmapset_id: bucket.entries@[i].beatmapset_id,
                    mode_family: bucket.entries@[i].mode_family,
                    normalized_offset: bucket.entries@[i].normalized_offset,
                },
            ),
    )
}

/// Where the buckets put their entries, bucket after bucket.
pub open spec fn index_placements(buckets: Seq<ManiaBucket>) -> Seq<(u64, ManiaPlacement)>
    decreases buckets.len(),
{
    if buckets.len() == 0 {
        seq![]
    } else {
        index_placements(buckets.drop_last()) + bucket_placements(buckets.last())
    }
}

/// Whether the beatmap at position `at` stands at an earlier position too.
pub open spec fn repeats(placements: Seq<(u64, ManiaPlacement)>, at: int) -> bool {
    exists|earlier: int|
        0 <= earlier < at && (#[trigger] placements[earlier]).0 == placements[at].0
}

/// The first position whose beatmap stands at an earlier position too.
pub open spec fn first_repeat(placements: Seq<(u64, ManiaPlacement)>, from: int) -> Option<int>
    decreases placements.len() - from,
{
    if from < 0 || from >= placements.len() {
        None
    } else if repeats(placements, from) {
        Some(from)
    } else {
        first_repeat(placements, from + 1)
    }
}

/// The placements by beatmap. Of several for one beatmap the last counts.
pub open spec fn placement_map(placements: Seq<(u64, ManiaPlacement)>) -> Map<u64, ManiaPlacement>
    decreases placements.len(),
{
    if placements.len() == 0 {
        Map::empty()
    } else {
        placement_map(placements.drop_last()).insert(placements.last().0, placements.last().1)
    }
}

/// What checking an index against the rows of its dataset finds.
pub open spec fn coverage(
    rows: Seq<ManiaNormalizedRow>,
    version: u32,
    index: ManiaBucketIndex,
) -> Result<(), ManiaIndexError> {
    let placements = index_placements(index.buckets@);
    if index.normalization_version != version || index.analyzer_version != MANIA_ANALYZER_VERSION {
        Err(ManiaIndexError::DatasetVersion)
    } else {
        match first_repeat(placements, 0) {
            Some(at) => Err(ManiaIndexError::DuplicateBeatmap { beatmap_id: placements[at].0 }),
            None => if placement_map(placements) == row_placements(rows) {
                Ok(())
            } else {
                Err(ManiaIndexError::Coverage)
            },
        }
    }
}

proof fn lemma_placement_map_keys(placements: Seq<(u64, ManiaPlacement)>, id: u64)
    ensures
        placement_map(placements).contains_key(id) <==> exists|i: int|
            0 <= i < placements.len() && (#[trigger] placements[i]).0 == id,
    decreases placements.len(),
{
    if placements.len() > 0 {
        let front = placements.drop_last();
        lemma_placement_map_keys(front, id);
        if placement_map(placements).contains_key(id) {
            if placements.last().0 == id {
                assert(placements[placements.len() - 1].0 == id);
            } else {
                let i = choose|i: int| 0 <= i < front.len() && (#[trigger] front[i]).0 == id;
                assert(placements[i].0 == id);
            }
        }
        if exists|i: int| 0 <= i < placements.len() && (#[trigger] placements[i]).0 == id {
            let i = choose|i: int| 0 <= i < placements.len() && (#[trigger] placements[i]).0 == id;
            if i < front.len() {
                assert(front[i].0 == id);
            }
        }
    }
}

proof fn lemma_no_repeat_before(placements: Seq<(u64, ManiaPlacement)>, from: int, at: int)
    requires
        0 <= from <= at <= placements.len(),
        forall|i: int| from <= i < at ==> !#[trigger] repeats(placements, i),
    ensures
        first_repeat(placements, from) == first_repeat(placements, at),
    decreases at - from,
{
    if from < at {
        assert(!repeats(placements, from));
        lemma_no_repeat_before(placements, from + 1, at);
    }
}

proof fn lemma_index_placements_prefix(buckets: Seq<ManiaBucket>, count: int)
    requires
        0 <= count <= buckets.len(),
    ensures
        index_placements(buckets.take(count)).len() <= index_placements(buckets).len(),
        index_placements(buckets).take(index_placements(buckets.take(count)).len() as int)
            == index_placements(buckets.take(count)),
    decreases buckets.len() - count,
{
    if count == buckets.len() {
        assert(buckets.take(count) =~= buckets);
        assert(index_placements(buckets).take(index_placements(buckets).len() as int)
            =~= index_placements(buckets));
    } else {
        lemma_index_placements_prefix(buckets, count + 1);
        let next = buckets.take(count + 1);
        assert(next.drop_last() =~= buckets.take(count));
        let short = index_placements(buckets.take(count));
        let long = index_placements(next);
        assert(long.take(short.len() as int) =~= short);
        assert(index_placements(buckets).take(short.len() as int) =~= index_placements(
            buckets,
        ).take(long.len() as int).take(short.len() as int));
    }
}

/// Where the beatmaps of `rows` belong.
fn expected_placements(rows: &Vec<ManiaNormalizedRow>) -> (map: BTreeMap<u64, ManiaPlacement>)
    ensures
        map@ == row_placements(rows@),
{
    let mut map: BTreeMap<u64, ManiaPlacement> = BTreeMap::new();
    let mut i: usize = 0;
    assert(rows@.take(0) =~= seq![]);
    while i < rows.len()
        invariant
            i <= rows@.len(),
            map@ == row_placements(rows@.take(i as int)),
        decreases rows@.len() - i,
    {
        let row: &ManiaNormalizedRow = &rows[i];
        map.insert(
            row.record.beatmap_id,
            ManiaPlacement {
                key_count: row.record.key_count,
                difficulty_band: row.record.difficulty_band,
                beatmapset_id: row.record.beatmapset_id,
                mode_family: row.record.mode_family,
                normalized_offset: row.offset,
            },
        );
        assert(rows@.take(i + 1).drop_last() =~= rows@.take(i as int));
        i = i + 1;
    }
    assert(rows@.take(rows@.len() as int) =~= rows@);
    map
}

/// Adds the entries of one bucket to `map`, up to the first beatmap that `map` already has.
fn place_bucket(
    map: &mut BTreeMap<u64, ManiaPlacement>,
    bucket: &ManiaBucket,
    Ghost(earlier): Ghost<Seq<(u64, ManiaPlacement)>>,
) -> (repeated: Option<u64>)
    requires
        old(map)@ == placement_map(earlier),
        forall|i: int| 0 <= i < earlier.len() ==> !#[trigger] repeats(earlier, i),
    ensures
        ({
            let all = earlier + bucket_placements(*bucket);
            match repeated {
                Some(id) => exists|at: int|
                    earlier.len() <= at < all.len() && #[trigger] repeats(all, at) && all[at].0 == id
                        && forall|i: int| 0 <= i < at ==> !#[trigger] repeats(all, i),
                None => final(map)@ == placement_map(all) && forall|i: int|
                    0 <= i < all.len() ==> !#[trigger] repeats(all, i),
            }
        }),
{
    let ghost all = earlier + bucket_placements(*bucket);
    let mut i: usize = 0;
    proof {
        assert(all.take(earlier.len() as int) =~= earlier);
        assert forall|k: int| 0 <= k < earlier.len() implies !#[trigger] repeats(all, k) by {
            if repeats(all, k) {
                let e = choose|e: int| 0 <= e < k && (#[trigger] all[e]).0 == all[k].0;
                assert(earlier[e].0 == earlier[k].0);
                assert(repeats(earlier, k));
            }
        }
    }
    while i < bucket.entries.len()
        invariant
            i <= bucket.entries@.len(),
            all == earlier + bucket_placements(*bucket),
            map@ == placement_map(all.take(earlier.len() + i)),
            forall|k: int| 0 <= k < earlier.len() + i ==> !#[trigger] repeats(all, k),
        decreases bucket.entries@.len() - i,
    {
        let entry: ManiaBucketEntry = bucket.entries[i];
        let ghost at = earlier.len() + i;
        let ghost seen = all.take(at as int);
        proof {
            assert(all[at as int].0 == entry.beatmap_id);
            assert(all.take(at + 1).drop_last() =~= seen);
            lemma_placement_map_keys(seen, entry.beatmap_id);
        }
        let previous: Option<ManiaPlacement> = map.insert(
            entry.beatmap_id,
            ManiaPlacement {
                key_count: bucket.key_count,
                difficulty_band: bucket.difficulty_band,
                beatmapset_id: entry.beatmapset_id,
                mode_family: entry.mode_family,
                normalized_offset: entry.normalized_offset,
            },
        );
        if previous.is_some() {
            proof {
                let e = choose|e: int| 0 <= e < seen.len() && (#[trigger] seen[e]).0
                    == entry.beatmap_id;
                assert(all[e].0 == all[at as int].0);
                assert(repeats(all, at as int));
            }
            return Some(entry.beatmap_id);
        }
        proof {
            if repeats(all, at as int) {
                let e = choose|e: int| 0 <= e < at && (#[trigger] all[e]).0 == all[at as int].0;
                assert(seen[e].0 == entry.beatmap_id);
            }
        }
        i = i + 1;
    }
    assert(all.take(all.len() as int) =~= all);
    None
}

/// Whether two maps hold the same placements.
fn same_placements(
    left: &BTreeMap<u64, ManiaPlacement>,
    right: &BTreeMap<u64, ManiaPlacement>,
) -> (same: bool)
    ensures
        same == (left@ == right@),
{
    if !placements_within(left, right) || !placements_within(right, left) {
        return false;
    }
    assert(left@ =~= right@);
    true
}

/// Whether `outer` has every placement of `inner`.
fn placements_within(
    inner: &BTreeMap<u64, ManiaPlacement>,
    outer: &BTreeMap<u64, ManiaPlacement>,
) -> (within: bool)
    ensures
        within == (forall|id: u64| #[trigger]
            inner@.contains_key(id) ==> outer@.contains_key(id) && outer@[id] == inner@[id]),
{
    let ids: Vec<u64> = keys64(inner);
    proof {
        crate::ordered::lemma_increasing_lists(crate::ordered::ints64(inner@.dom()));
    }
    let ghost listed = crate::ordered::list64(ids@);
    let mut i: usize = 0;
    while i < ids.len()
        invariant
            i <= ids@.len(),
            forall|k: int| 0 <= k < ids@.len() ==> inner@.contains_key(#[trigger] ids@[k]),
            forall|k: int|
                0 <= k < i ==> outer@.contains_key(#[trigger] ids@[k]) && outer@[ids@[k]]
                    == inner@[ids@[k]],
        decreases ids@.len() - i,
    {
        let id: u64 = ids[i];
        assert(inner@.contains_key(ids@[i as int]));
        match (inner.get(&id), outer.get(&id)) {
            (Some(left), Some(right)) => {
                if *left != *right {
                    return false;
                }
            },
            _ => {
                return false;
            },
        }
        i = i + 1;
    }
    proof {
        assert forall|id: u64| #[trigger] inner@.contains_key(id) implies outer@.contains_key(id)
            && outer@[id] == inner@[id] by {
            assert(crate::ordered::ints64(inner@.dom()).contains(id as int));
            assert(listed.contains(id as int));
            let k = choose|k: int| 0 <= k < listed.len() && listed[k] == id;
            assert(ids@[k] == id);
        }
    }
    true
}

/// Checks that `index` holds every normalized record of its version once, and as it is.
pub fn validate_mania_index_coverage(
    store: &ManiaFeatureStore,
    version: u32,
    index: &ManiaBucketIndex,
) -> (outcome: Result<(), ManiaIndexError>)
    ensures
        outcome == coverage(crate::mania::rows_of(store.rows@, version), version, *index),
{
    let rows: Vec<ManiaNormalizedRow> = store.normalized_records_with_offsets(version);
    let expected: BTreeMap<u64, ManiaPlacement> = expected_placements(&rows);
    if index.normalization_version != version || index.analyzer_version != MANIA_ANALYZER_VERSION {
        return Err(ManiaIndexError::DatasetVersion);
    }
    let ghost placements = index_placements(index.buckets@);
    let mut actual: BTreeMap<u64, ManiaPlacement> = BTreeMap::new();
    let mut b: usize = 0;
    assert(index.buckets@.take(0) =~= seq![]);
    while b < index.buckets.len()
        invariant
            b <= index.buckets@.len(),
            rows@ == crate::mania::rows_of(store.rows@, version),
            index.normalization_version == version,
            index.analyzer_version == MANIA_ANALYZER_VERSION,
            placements == index_placements(index.buckets@),
            actual@ == placement_map(index_placements(index.buckets@.take(b as int))),
            ({
                let earlier = index_placements(index.buckets@.take(b as int));
                forall|i: int| 0 <= i < earlier.len() ==> !#[trigger] repeats(earlier, i)
            }),
        decreases index.buckets@.len() - b,
    {
        let ghost earlier = index_placements(index.buckets@.take(b as int));
        let bucket: &ManiaBucket = &index.buckets[b];
        proof {
            assert(index.buckets@.take(b + 1).drop_last() =~= index.buckets@.take(b as int));
            lemma_index_placements_prefix(index.buckets@, b + 1);
        }
        let ghost all = index_placements(index.buckets@.take(b + 1));
        match place_bucket(&mut actual, bucket, Ghost(earlier)) {
            Some(beatmap_id) => {
                proof {
                    let at = choose|at: int|
                        earlier.len() <= at < all.len() && #[trigger] repeats(all, at) && all[at].0
                            == beatmap_id && forall|i: int|
                            0 <= i < at ==> !#[trigger] repeats(all, i);
                    assert(placements.take(all.len() as int) == all);
                    assert forall|i: int| 0 <= i < at implies !#[trigger] repeats(
                        placements,
                        i,
                    ) by {
                        if repeats(placements, i) {
                            let e = choose|e: int|
                                0 <= e < i && (#[trigger] placements[e]).0 == placements[i].0;
                            assert(placements.take(all.len() as int)[e] == placements[e]);
                            assert(placements.take(all.len() as int)[i] == placements[i]);
                            assert(all[e].0 == all[i].0);
                            assert(repeats(all, i));
                        }
                    }
                    let e = choose|e: int| 0 <= e < at && (#[trigger] all[e]).0 == all[at].0;
                    assert(placements.take(all.len() as int)[e] == placements[e]);
                    assert(placements.take(all.len() as int)[at] == placements[at]);
                    assert(placements[e].0 == placements[at].0);
                    assert(repeats(placements, at));
                    lemma_no_repeat_before(placements, 0, at);
                }
                return Err(ManiaIndexError::DuplicateBeatmap { beatmap_id });
            },
            None => {},
        }
        b = b + 1;
    }
    proof {
        assert(index.buckets@.take(index.buckets@.len() as int) =~= index.buckets@);
        lemma_no_repeat_before(placements, 0, placements.len() as int);
    }
    if !same_placements(&actual, &expected) {
        return Err(ManiaIndexError::Coverage);
    }
    Ok(())
}

// Queries

#[derive(Clone, Copy, Debug, PartialEq, Eq, Structural)]
pub struct ManiaSimilarityQuery {
    pub result_limit: usize,
    pub include_same_set: bool,
}

#[derive(Clone, Copy, Debug, PartialEq, Eq, Structural)]
pub struct ManiaDistanceComponents {
    pub skill: F32,
    pub pattern: F32,
    pub structure: F32,
    pub difficulty: F32,
    pub context: F32,
}

/// How far a candidate is from the target of a query.
#[derive(Clone, Copy, Debug, PartialEq, Eq, Structural)]
pub struct ManiaDistance {
    pub components: ManiaDistanceComponents,
    pub final_distance: F32,
}

#[derive(Clone, Debug)]
pub struct ManiaSimilarityResult {
    pub beatmap_id: u64,
    pub beatmapset_id: u64,
    pub artist: String,
    pub title: String,
    pub version: String,
    pub key_count: u8,
    pub mode_family: ManiaModeFamily,
    pub dominant_pattern: ManiaPattern,
    pub difficulty_percentile: F32,
    pub difficulty_band: u8,
    pub final_distance: F32,
    pub components: ManiaDistanceComponents,
}

/// The bucket index of one normalization version, ready for queries.
pub struct ManiaSimilarityStore {
    root: String,
    version: u32,
    index: ManiaBucketIndex,
}

/// Whether a candidate is left out: the target itself, and on request its whole beatmap set.
pub open spec fn excluded(
    target: ManiaFeatureRecord,
    candidate: ManiaBucketEntry,
    include_same_set: bool,
) -> bool {
    ||| candidate.beatmap_id == target.beatmap_id
    ||| (!include_same_set && target.beatmapset_id != 0 && candidate.beatmapset_id
        == target.beatmapset_id)
}

/// Whether a candidate is left out of the results for `target`.
pub fn excluded_entry(
    target: &ManiaFeatureRecord,
    candidate: &ManiaBucketEntry,
    include_same_set: bool,
) -> (answer: bool)
    ensures
        answer == excluded(*target, *candidate, include_same_set),
{
    candidate.beatmap_id == target.beatmap_id || (!include_same_set && target.beatmapset_id != 0
        && candidate.beatmapset_id == target.beatmapset_id)
}

/// The first bucket, from `from` on, for the given key count and band.
pub open spec fn first_bucket(
    buckets: Seq<ManiaBucket>,
    key_count: u8,
    band: int,
    from: int,
) -> Option<int>
    decreases buckets.len() - from,
{
    if from < 0 || from >= buckets.len() {
        None
    } else if buckets[from].key_count == key_count && buckets[from].difficulty_band == band {
        Some(from)
    } else {
        first_bucket(buckets, key_count, band, from + 1)
    }
}

/// `gathered` with `entries` added by beatmap; a later entry replaces an earlier one.
pub open spec fn with_entries(
    gathered: Map<u64, ManiaBucketEntry>,
    entries: Seq<ManiaBucketEntry>,
) -> Map<u64, ManiaBucketEntry>
    decreases entries.len(),
{
    if entries.len() == 0 {
        gathered
    } else {
        with_entries(gathered, entries.drop_last()).insert(
            entries.last().beatmap_id,
            entries.last(),
        )
    }
}

/// `gathered` with the entries of the bucket for one band, if the band exists and has one.
pub open spec fn with_band(
    gathered: Map<u64, ManiaBucketEntry>,
    buckets: Seq<ManiaBucket>,
    key_count: u8,
    band: int,
) -> Map<u64, ManiaBucketEntry> {
    if 0 <= band <= 9 {
        match first_bucket(buckets, key_count, band, 0) {
            Some(b) => with_entries(gathered, buckets[b].entries@),
            None => gathered,
        }
    } else {
        gathered
    }
}

/// The entries of all bands at most `radius` away from the target's own, nearer bands first.
pub open spec fn gathered_within(
    buckets: Seq<ManiaBucket>,
    target: ManiaFeatureRecord,
    radius: nat,
) -> Map<u64, ManiaBucketEntry>
    decreases radius,
{
    let center = target.difficulty_band as int;
    if radius == 0 {
        with_band(Map::empty(), buckets, target.key_count, center)
    } else {
        with_band(
            with_band(
                gathered_within(buckets, target, (radius - 1) as nat),
                buckets,
                target.key_count,
                center - radius,
            ),
            buckets,
            target.key_count,
            center + radius,
        )
    }
}

/// The gathered beatmaps that are not left out.
pub open spec fn eligible_ids(
    gathered: Map<u64, ManiaBucketEntry>,
    target: ManiaFeatureRecord,
    include_same_set: bool,
) -> Set<int> {
    Set::new(
        |id: int|
            0 <= id <= u64::MAX && gathered.contains_key(id as u64) && !excluded(
                target,
                gathered[id as u64],
                include_same_set,
            ),
    )
}

/// The gathered entries that are not left out, by increasing beatmap identifier.
pub open spec fn eligible_entries(
    gathered: Map<u64, ManiaBucketEntry>,
    target: ManiaFeatureRecord,
    include_same_set: bool,
) -> Seq<ManiaBucketEntry> {
    let ids = crate::ordered::increasing(eligible_ids(gathered, target, include_same_set));
    Seq::new(ids.len(), |i: int| gathered[ids[i] as u64])
}

/// How many of `entries` are of one mode family.
pub open spec fn family_count(entries: Seq<ManiaBucketEntry>, family: ManiaModeFamily) -> nat
    decreases entries.len(),
{
    if entries.len() == 0 {
        0
    } else {
        family_count(entries.drop_last(), family) + if entries.last().mode_family == family {
            1nat
        } else {
            0nat
        }
    }
}

/// How many candidates a query wants in all: four per result, and at least 256.
pub open spec fn wanted_in_all(limit: int) -> int {
    if 4 * limit > 256 {
        4 * limit
    } else {
        256
    }
}

/// How many candidates of its own family a query wants: two per result, and at least 32.
pub open spec fn wanted_of_family(limit: int) -> int {
    if 2 * limit > 32 {
        2 * limit
    } else {
        32
    }
}

/// Whether `entries` are as many candidates as the query wants.
pub open spec fn enough(
    entries: Seq<ManiaBucketEntry>,
    target: ManiaFeatureRecord,
    query: ManiaSimilarityQuery,
) -> bool {
    &&& entries.len() >= wanted_in_all(query.result_limit as int)
    &&& family_count(entries, target.mode_family) >= wanted_of_family(query.result_limit as int)
}

/// The least radius, from `radius` on, that gathers enough candidates, or else the widest.
pub open spec fn search_radius(
    buckets: Seq<ManiaBucket>,
    target: ManiaFeatureRecord,
    query: ManiaSimilarityQuery,
    radius: nat,
) -> nat
    decreases 9 - radius,
{
    let entries = eligible_entries(
        gathered_within(buckets, target, radius),
        target,
        query.include_same_set,
    );
    if radius >= 9 || enough(entries, target, query) {
        radius
    } else {
        search_radius(buckets, target, query, radius + 1)
    }
}

/// The candidates of a query, by increasing beatmap identifier.
pub open spec fn selection(
    buckets: Seq<ManiaBucket>,
    target: ManiaFeatureRecord,
    query: ManiaSimilarityQuery,
) -> Seq<ManiaBucketEntry> {
    eligible_entries(
        gathered_within(buckets, target, search_radius(buckets, target, query, 0)),
        target,
        query.include_same_set,
    )
}

/// What makes a query unanswerable before any candidate is looked at.
pub open spec fn query_refusal(
    version: u32,
    target: ManiaFeatureRecord,
    query: ManiaSimilarityQuery,
) -> Option<ManiaIndexError> {
    if !(1 <= query.result_limit <= 100) {
        Some(ManiaIndexError::ResultLimit)
    } else if target.normalization_version != version || target.analyzer_version
        != MANIA_ANALYZER_VERSION {
        Some(ManiaIndexError::TargetVersion)
    } else {
        None
    }
}

fn add_entries(gathered: &mut BTreeMap<u64, ManiaBucketEntry>, entries: &Vec<ManiaBucketEntry>)
    ensures
        final(gathered)@ == with_entries(old(gathered)@, entries@),
{
    let ghost before = gathered@;
    let mut i: usize = 0;
    assert(entries@.take(0) =~= seq![]);
    while i < entries.len()
        invariant
            i <= entries@.len(),
            gathered@ == with_entries(before, entries@.take(i as int)),
        decreases entries@.len() - i,
    {
        let entry: ManiaBucketEntry = entries[i];
        gathered.insert(entry.beatmap_id, entry);
        assert(entries@.take(i + 1).drop_last() =~= entries@.take(i as int));
        i = i + 1;
    }
    assert(entries@.take(entries@.len() as int) =~= entries@);
}

fn add_band(
    gathered: &mut BTreeMap<u64, ManiaBucketEntry>,
    buckets: &Vec<ManiaBucket>,
    key_count: u8,
    band: i16,
)
    ensures
        final(gathered)@ == with_band(old(gathered)@, buckets@, key_count, band as int),
{
    if band < 0 || band > 9 {
        return ;
    }
    let mut b: usize = 0;
    while b < buckets.len()
        invariant
            b <= buckets@.len(),
            0 <= band <= 9,
            gathered@ == old(gathered)@,
            first_bucket(buckets@, key_count, band as int, 0) == first_bucket(
                buckets@,
                key_count,
                band as int,
                b as int,
            ),
        decreases buckets@.len() - b,
    {
        if buckets[b].key_count == key_count && buckets[b].difficulty_band as i16 == band {
            add_entries(gathered, &buckets[b].entries);
            return ;
        }
        b = b + 1;
    }
}

/// The gathered entries that are not left out, by increasing beatmap identifier.
fn eligible(
    gathered: &BTreeMap<u64, ManiaBucketEntry>,
    target: &ManiaFeatureRecord,
    include_same_set: bool,
) -> (entries: Vec<ManiaBucketEntry>)
    ensures
        entries@ == eligible_entries(gathered@, *target, include_same_set),
{
    let ids: Vec<u64> = keys64(gathered);
    let ghost wanted = eligible_ids(gathered@, *target, include_same_set);
    let ghost listed = crate::ordered::list64(ids@);
    proof {
        crate::ordered::lemma_increasing_lists(crate::ordered::ints64(gathered@.dom()));
    }
    let mut entries: Vec<ManiaBucketEntry> = Vec::new();
    let ghost mut kept: Seq<int> = seq![];
    let mut i: usize = 0;
    while i < ids.len()
        invariant
            i <= ids@.len(),
            wanted == eligible_ids(gathered@, *target, include_same_set),
            listed == crate::ordered::list64(ids@),
            crate::ordered::lists(listed, crate::ordered::ints64(gathered@.dom())),
            forall|k: int| 0 <= k < ids@.len() ==> gathered@.contains_key(#[trigger] ids@[k]),
            entries@.len() == kept.len(),
            forall|k: int|
                0 <= k < kept.len() ==> 0 <= #[trigger] kept[k] <= u64::MAX && entries@[k]
                    == gathered@[kept[k] as u64] && wanted.contains(kept[k]),
            forall|k: int| 0 <= k < kept.len() && i < ids@.len() ==> #[trigger] kept[k] < ids@[
                i as int
            ],
            forall|a: int, b: int|
                0 <= a < b < kept.len() ==> #[trigger] kept[a] < #[trigger] kept[b],
            forall|k: int|
                0 <= k < i && wanted.contains(listed[k]) ==> kept.contains(#[trigger] listed[k]),
        decreases ids@.len() - i,
    {
        let id: u64 = ids[i];
        let ghost before = kept;
        assert(gathered@.contains_key(ids@[i as int]));
        assert(listed[i as int] == id);
        if i + 1 < ids.len() {
            assert(listed[i as int] < listed[i + 1]);
        }
        if let Some(entry) = gathered.get(&id) {
            if !excluded_entry(target, entry, include_same_set) {
                entries.push(*entry);
                proof {
                    kept = kept.push(id as int);
                    assert(kept[before.len() as int] == id);
                    assert forall|v: int| before.contains(v) implies kept.contains(v) by {
                        let p = choose|p: int| 0 <= p < before.len() && before[p] == v;
                        assert(kept[p] == v);
                    }
                }
            }
        }
        i = i + 1;
    }
    proof {
        assert forall|id: int| #[trigger] kept.contains(id) <==> wanted.contains(id) by {
            if wanted.contains(id) {
                assert(crate::ordered::ints64(gathered@.dom()).contains(id));
                assert(listed.contains(id));
                let p = choose|p: int| 0 <= p < listed.len() && listed[p] == id;
                assert(kept.contains(listed[p]));
            }
        }
        crate::ordered::lemma_increasing_lists(wanted);
        crate::ordered::lemma_lists_is_unique(kept, crate::ordered::increasing(wanted), wanted);
        assert(entries@ =~= eligible_entries(gathered@, *target, include_same_set));
    }
    entries
}

fn count_family(entries: &Vec<ManiaBucketEntry>, family: ManiaModeFamily) -> (count: usize)
    ensures
        count == family_count(entries@, family),
{
    let mut count: usize = 0;
    let mut i: usize = 0;
    assert(entries@.take(0) =~= seq![]);
    while i < entries.len()
        invariant
            i <= entries@.len(),
            count <= i,
            count == family_count(entries@.take(i as int), family),
        decreases entries@.len() - i,
    {
        assert(entries@.take(i + 1).drop_last() =~= entries@.take(i as int));
        if entries[i].mode_family == family {
            count = count + 1;
        }
        i = i + 1;
    }
    assert(entries@.take(entries@.len() as int) =~= entries@);
    count
}

/// The record that stands at one offset.
pub open spec fn record_at(
    rows: Seq<ManiaNormalizedRow>,
    version: u32,
    offset: u64,
) -> ManiaFeatureRecord {
    rows[crate::mania::row_at_offset(rows, version, offset, 0)->0].record
}

/// The first entry, from `from` on, whose offset holds no record.
pub open spec fn first_missing(
    rows: Seq<ManiaNormalizedRow>,
    version: u32,
    entries: Seq<ManiaBucketEntry>,
    from: int,
) -> Option<int>
    decreases entries.len() - from,
{
    if from < 0 || from >= entries.len() {
        None
    } else if crate::mania::row_at_offset(rows, version, entries[from].normalized_offset, 0) is None {
        Some(from)
    } else {
        first_missing(rows, version, entries, from + 1)
    }
}

/// Whether a record is the one that an index entry speaks of.
pub open spec fn matches_entry(
    record: ManiaFeatureRecord,
    entry: ManiaBucketEntry,
    key_count: u8,
) -> bool {
    &&& record.beatmap_id == entry.beatmap_id
    &&& record.beatmapset_id == entry.beatmapset_id
    &&& record.key_count == key_count
    &&& record.mode_family == entry.mode_family
}

/// The first position, from `from` on, at which the record is not the one of the entry.
pub open spec fn first_mismatch(
    records: Seq<ManiaFeatureRecord>,
    entries: Seq<ManiaBucketEntry>,
    key_count: u8,
    from: int,
) -> Option<int>
    decreases entries.len() - from,
{
    if from < 0 || from >= entries.len() {
        None
    } else if !matches_entry(records[from], entries[from], key_count) {
        Some(from)
    } else {
        first_mismatch(records, entries, key_count, from + 1)
    }
}

/// The records at the offsets of `entries`.
pub open spec fn records_of(
    rows: Seq<ManiaNormalizedRow>,
    version: u32,
    entries: Seq<ManiaBucketEntry>,
) -> Seq<ManiaFeatureRecord> {
    Seq::new(entries.len(), |i: int| record_at(rows, version, entries[i].normalized_offset))
}

/// The keys by which candidates are ranked: the distance, then the beatmap's identifier.
pub open spec fn distance_keys(
    entries: Seq<ManiaBucketEntry>,
    distances: Seq<ManiaDistance>,
) -> Seq<Seq<int>> {
    Seq::new(
        entries.len(),
        |i: int| crate::sorting::rank_key(distances[i].final_distance, entries[i].beatmap_id),
    )
}

/// The positions of the nearest candidates, nearest first, at most `limit` of them.
pub open spec fn nearest(
    entries: Seq<ManiaBucketEntry>,
    distances: Seq<ManiaDistance>,
    limit: int,
) -> Seq<int> {
    let order = crate::sorting::stable_order(distance_keys(entries, distances));
    if order.len() <= limit {
        order
    } else {
        order.take(limit)
    }
}

/// The first position in `shown`, from `from` on, of an entry without metadata.
pub open spec fn first_unlabelled(
    metadata: Map<u64, ManiaBeatmapMetadata>,
    entries: Seq<ManiaBucketEntry>,
    shown: Seq<int>,
    from: int,
) -> Option<int>
    decreases shown.len() - from,
{
    if from < 0 || from >= shown.len() {
        None
    } else if !metadata.contains_key(entries[shown[from]].beatmap_id) {
        Some(from)
    } else {
        first_unlabelled(metadata, entries, shown, from + 1)
    }
}

/// Whether a result is made of one record, its distance and its metadata.
pub open spec fn describes(
    result: ManiaSimilarityResult,
    record: ManiaFeatureRecord,
    distance: ManiaDistance,
    metadata: ManiaBeatmapMetadata,
) -> bool {
    &&& result.beatmap_id == record.beatmap_id
    &&& result.beatmapset_id == record.beatmapset_id
    &&& result.artist@ == metadata.artist@
    &&& result.title@ == metadata.title@
    &&& result.version@ == metadata.version@
    &&& result.key_count == record.key_count
    &&& result.mode_family == record.mode_family
    &&& result.dominant_pattern == record.dominant_pattern
    &&& result.difficulty_percentile == record.difficulty_percentile
    &&& result.difficulty_band == record.difficulty_band
    &&& result.final_distance == distance.final_distance
    &&& result.components == distance.components
}

/// Whether `outcome` answers a query whose candidates are `entries` at `distances`.
pub open spec fn answers(
    store: ManiaFeatureStore,
    version: u32,
    key_count: u8,
    entries: Seq<ManiaBucketEntry>,
    distances: Seq<ManiaDistance>,
    limit: int,
    outcome: Result<Vec<ManiaSimilarityResult>, ManiaIndexError>,
) -> bool {
    let rows = store.rows@;
    let records = records_of(rows, version, entries);
    let shown = nearest(entries, distances, limit);
    match first_missing(rows, version, entries, 0) {
        Some(i) => outcome matches Err(error) && error == (ManiaIndexError::MissingRecord {
            offset: entries[i].normalized_offset,
        }),
        None => match first_mismatch(records, entries, key_count, 0) {
            Some(i) => outcome matches Err(error) && error == (ManiaIndexError::EntryMismatch {
                beatmap_id: entries[i].beatmap_id,
            }),
            None => match first_unlabelled(store.metadata@, entries, shown, 0) {
                Some(k) => outcome matches Err(error) && error == (
                ManiaIndexError::UnknownMetadata { beatmap_id: entries[shown[k]].beatmap_id }),
                None => outcome matches Ok(results) && results@.len() == shown.len() && forall|
                    k: int,
                |
                    0 <= k < shown.len() ==> describes(
                        #[trigger] results@[k],
                        records[shown[k]],
                        distances[shown[k]],
                        store.metadata@[entries[shown[k]].beatmap_id],
                    ),
            },
        },
    }
}

impl ManiaSimilarityStore {
    pub closed spec fn buckets(&self) -> Seq<ManiaBucket> {
        self.index.buckets@
    }

    pub closed spec fn normalization_version(&self) -> u32 {
        self.version
    }

    pub closed spec fn directory(&self) -> Seq<char> {
        self.root@
    }

    /// Opens the index that was read for `root`, if it is of the active versions.
    pub fn open(root: String, version: u32, index: ManiaBucketIndex) -> (outcome: Result<
        ManiaSimilarityStore,
        ManiaIndexError,
    >)
        ensures
            match outcome {
                Ok(store) => {
                    &&& index.normalization_version == version
                    &&& index.analyzer_version == MANIA_ANALYZER_VERSION
                    &&& store.directory() == root@
                    &&& store.normalization_version() == version
                    &&& store.buckets() == index.buckets@
                },
                Err(error) => {
                    &&& error == ManiaIndexError::ActiveVersion
                    &&& (index.normalization_version != version || index.analyzer_version
                        != MANIA_ANALYZER_VERSION)
                },
            },
    {
        if index.normalization_version != version || index.analyzer_version
            != MANIA_ANALYZER_VERSION {
            return Err(ManiaIndexError::ActiveVersion);
        }
        Ok(ManiaSimilarityStore { root, version, index })
    }

    /// The directory that the index belongs to.
    pub fn root(&self) -> (root: &str)
        ensures
            root@ == self.directory(),
    {
        self.root.as_str()
    }

    /// The candidates of a query: the entries of the target's own band, and of further bands
    /// as long as these are too few, without the target and, on request, without its set.
    pub fn candidates(
        &self,
        target: &ManiaFeatureRecord,
        query: ManiaSimilarityQuery,
    ) -> (outcome: Result<Vec<ManiaBucketEntry>, ManiaIndexError>)
        ensures
            match query_refusal(self.normalization_version(), *target, query) {
                Some(error) => outcome == Err::<Vec<ManiaBucketEntry>, ManiaIndexError>(error),
                None => outcome matches Ok(entries) && entries@ == selection(
                    self.buckets(),
                    *target,
                    query,
                ),
            },
    {
        if query.result_limit < 1 || query.result_limit > 100 {
            return Err(ManiaIndexError::ResultLimit);
        }
        if target.normalization_version != self.version || target.analyzer_version
            != MANIA_ANALYZER_VERSION {
            return Err(ManiaIndexError::TargetVersion);
        }
        let in_all: usize = if query.result_limit * 4 > 256 {
            query.result_limit * 4
        } else {
            256
        };
        let of_family: usize = if query.result_limit * 2 > 32 {
            query.result_limit * 2
        } else {
            32
        };
        let center: i16 = target.difficulty_band as i16;
        let mut gathered: BTreeMap<u64, ManiaBucketEntry> = BTreeMap::new();
        let mut radius: i16 = 0;
        loop
            invariant
                0 <= radius <= 9,
                center == target.difficulty_band,
                in_all == wanted_in_all(query.result_limit as int),
                of_family == wanted_of_family(query.result_limit as int),
                query_refusal(self.normalization_version(), *target, query) is None,
                radius == 0 ==> gathered@ == Map::<u64, ManiaBucketEntry>::empty(),
                radius > 0 ==> gathered@ == gathered_within(
                    self.buckets(),
                    *target,
                    (radius - 1) as nat,
                ),
                search_radius(self.buckets(), *target, query, 0) == search_radius(
                    self.buckets(),
                    *target,
                    query,
                    radius as nat,
                ),
            decreases 9 - radius,
        {
            add_band(&mut gathered, &self.index.buckets, target.key_count, center - radius);
            if radius > 0 {
                add_band(&mut gathered, &self.index.buckets, target.key_count, center + radius);
            }
            assert(gathered@ == gathered_within(self.buckets(), *target, radius as nat));
            let entries: Vec<ManiaBucketEntry> = eligible(
                &gathered,
                target,
                query.include_same_set,
            );
            let same_family: usize = count_family(&entries, target.mode_family);
            if radius == 9 || (entries.len() >= in_all && same_family >= of_family) {
                return Ok(entries);
            }
            radius = radius + 1;
        }
    }

    /// The records that the index entries point to.
    pub fn candidate_records(
        &self,
        store: &ManiaFeatureStore,
        entries: &Vec<ManiaBucketEntry>,
    ) -> (outcome: Result<Vec<ManiaFeatureRecord>, ManiaIndexError>)
        ensures
            match first_missing(store.rows@, self.normalization_version(), entries@, 0) {
                Some(i) => outcome == Err::<Vec<ManiaFeatureRecord>, ManiaIndexError>(
                    ManiaIndexError::MissingRecord { offset: entries@[i].normalized_offset },
                ),
                None => outcome matches Ok(records) && records@ == records_of(
                    store.rows@,
                    self.normalization_version(),
                    entries@,
                ),
            },
    {
        let mut records: Vec<ManiaFeatureRecord> = Vec::new();
        let mut i: usize = 0;
        while i < entries.len()
            invariant
                i <= entries@.len(),
                records@.len() == i,
                forall|k: int|
                    0 <= k < i ==> records@[k] == record_at(
                        store.rows@,
                        self.normalization_version(),
                        entries@[k].normalized_offset,
                    ),
                first_missing(store.rows@, self.normalization_version(), entries@, 0)
                    == first_missing(
                    store.rows@,
                    self.normalization_version(),
                    entries@,
                    i as int,
                ),
            decreases entries@.len() - i,
        {
            let offset: u64 = entries[i].normalized_offset;
            match store.normalized_record_at(self.version, offset) {
                Some(record) => {
                    records.push(record);
                },
                None => {
                    return Err(ManiaIndexError::MissingRecord { offset });
                },
            }
            i = i + 1;
        }
        assert(records@ =~= records_of(store.rows@, self.normalization_version(), entries@));
        Ok(records)
    }

    /// The results of a query for `target`, whose candidates are at `distances`.
    pub fn query_record(
        &self,
        store: &ManiaFeatureStore,
        target: &ManiaFeatureRecord,
        query: ManiaSimilarityQuery,
        distances: &Vec<ManiaDistance>,
    ) -> (outcome: Result<Vec<ManiaSimilarityResult>, ManiaIndexError>)
        requires
            query_refusal(self.normalization_version(), *target, query) is None
                ==> distances@.len() == selection(self.buckets(), *target, query).len(),
        ensures
            match query_refusal(self.normalization_version(), *target, query) {
                Some(error) => outcome matches Err(reported) && reported == error,
                None => answers(
                    *store,
                    self.normalization_version(),
                    target.key_count,
                    selection(self.buckets(), *target, query),
                    distances@,
                    query.result_limit as int,
                    outcome,
                ),
            },
    {
        let entries: Vec<ManiaBucketEntry> = match self.candidates(target, query) {
            Ok(entries) => entries,
            Err(error) => {
                return Err(error);
            },
        };
        let records: Vec<ManiaFeatureRecord> = match self.candidate_records(store, &entries) {
            Ok(records) => records,
            Err(error) => {
                return Err(error);
            },
        };
        let mut keys: Vec<RankKey> = Vec::new();
        let mut i: usize = 0;
        while i < entries.len()
            invariant
                i <= entries@.len(),
                entries@.len() == distances@.len(),
                entries@.len() == records@.len(),
                entries@ == selection(self.buckets(), *target, query),
                records@ == records_of(store.rows@, self.normalization_version(), entries@),
                query_refusal(self.normalization_version(), *target, query) is None,
                first_missing(store.rows@, self.normalization_version(), entries@, 0) is None,
                keys@.len() == i,
                forall|k: int|
                    0 <= k < i ==> (#[trigger] keys@[k]).value == distances@[k].final_distance
                        && keys@[k].id == entries@[k].beatmap_id,
                first_mismatch(records@, entries@, target.key_count, 0) == first_mismatch(
                    records@,
                    entries@,
                    target.key_count,
                    i as int,
                ),
            decreases entries@.len() - i,
        {
            let record: &ManiaFeatureRecord = &records[i];
            let entry: &ManiaBucketEntry = &entries[i];
            if record.beatmap_id != entry.beatmap_id || record.beatmapset_id != entry.beatmapset_id
                || record.key_count != target.key_count || record.mode_family
                != entry.mode_family {
                return Err(ManiaIndexError::EntryMismatch { beatmap_id: entry.beatmap_id });
            }
            keys.push(RankKey { value: distances[i].final_distance, id: entry.beatmap_id });
            i = i + 1;
        }
        assert(crate::sorting::keys_of(keys@) =~= distance_keys(entries@, distances@));
        let order: Vec<usize> = order_of(&keys);
        let ghost stable = crate::sorting::stable_order(distance_keys(entries@, distances@));
        let ghost shown = nearest(entries@, distances@, query.result_limit as int);
        let count: usize = if order.len() <= query.result_limit {
            order.len()
        } else {
            query.result_limit
        };
        let mut results: Vec<ManiaSimilarityResult> = Vec::new();
        let mut k: usize = 0;
        while k < count
            invariant
                k <= count <= order@.len(),
                shown.len() == count,
                stable == crate::sorting::positions(order@),
                forall|j: int| 0 <= j < count ==> #[trigger] shown[j] == stable[j],
                order@.len() == entries@.len(),
                forall|j: int| 0 <= j < order@.len() ==> #[trigger] order@[j] < entries@.len(),
                entries@.len() == distances@.len(),
                entries@.len() == records@.len(),
                entries@ == selection(self.buckets(), *target, query),
                records@ == records_of(store.rows@, self.normalization_version(), entries@),
                shown == nearest(entries@, distances@, query.result_limit as int),
                query_refusal(self.normalization_version(), *target, query) is None,
                first_missing(store.rows@, self.normalization_version(), entries@, 0) is None,
                first_mismatch(records@, entries@, target.key_count, 0) is None,
                first_unlabelled(store.metadata@, entries@, shown, 0) == first_unlabelled(
                    store.metadata@,
                    entries@,
                    shown,
                    k as int,
                ),
                results@.len() == k,
                forall|j: int|
                    0 <= j < k ==> describes(
                        #[trigger] results@[j],
                        records@[shown[j]],
                        distances@[shown[j]],
                        store.metadata@[entries@[shown[j]].beatmap_id],
                    ),
            decreases count - k,
        {
            let at: usize = order[k];
            assert(shown[k as int] == stable[k as int]);
            assert(stable[k as int] == at);
            let record: &ManiaFeatureRecord = &records[at];
            let beatmap_id: u64 = entries[at].beatmap_id;
            match store.metadata.get(&beatmap_id) {
                Some(metadata) => {
                    results.push(
                        ManiaSimilarityResult {
                            beatmap_id: record.beatmap_id,
                            beatmapset_id: record.beatmapset_id,
                            artist: metadata.artist.clone(),
                            title: metadata.title.clone(),
                            version: metadata.version.clone(),
                            key_count: record.key_count,
                            mode_family: record.mode_family,
                            dominant_pattern: record.dominant_pattern,
                            difficulty_percentile: record.difficulty_percentile,
                            difficulty_band: record.difficulty_band,
                            final_distance: distances[at].final_distance,
                            components: distances[at].components,
                        },
                    );
                },
                None => {
                    return Err(ManiaIndexError::UnknownMetadata { beatmap_id });
                },
            }
            k = k + 1;
        }
        Ok(results)
    }

    /// The results of a query for a beatmap of the dataset, whose candidates are at `distances`.
    pub fn query_by_id(
        &self,
        store: &ManiaFeatureStore,
        beatmap_id: u64,
        query: ManiaSimilarityQuery,
        distances: &Vec<ManiaDistance>,
    ) -> (outcome: Result<Vec<ManiaSimilarityResult>, ManiaIndexError>)
        requires
            match crate::mania::row_with_id(
                store.rows@,
                self.normalization_version(),
                beatmap_id,
                0,
            ) {
                Some(at) => query_refusal(
                    self.normalization_version(),
                    store.rows@[at].record,
                    query,
                ) is None ==> distances@.len() == selection(
                    self.buckets(),
                    store.rows@[at].record,
                    query,
                ).len(),
                None => true,
            },
        ensures
            match crate::mania::row_with_id(
                store.rows@,
                self.normalization_version(),
                beatmap_id,
                0,
            ) {
                Some(at) => {
                    let target = store.rows@[at].record;
                    match query_refusal(self.normalization_version(), target, query) {
                        Some(error) => outcome matches Err(reported) && reported == error,
                        None => answers(
                            *store,
                            self.normalization_version(),
                            target.key_count,
                            selection(self.buckets(), target, query),
                            distances@,
                            query.result_limit as int,
                            outcome,
                        ),
                    }
                },
                None => outcome matches Err(reported) && reported == (
                ManiaIndexError::UnknownTarget { beatmap_id }),
            },
    {
        match store.normalized_for_id(self.version, beatmap_id) {
            Some(target) => self.query_record(store, &target, query, distances),
            None => Err(ManiaIndexError::UnknownTarget { beatmap_id }),
        }
    }
}

// Laws

/// Whether no two rows are of the same beatmap.
pub open spec fn distinct_beatmaps(rows: Seq<ManiaNormalizedRow>) -> bool {
    forall|i: int, j: int|
        0 <= i < j < rows.len() ==> (#[trigger] rows[i]).record.beatmap_id != (
        #[trigger] rows[j]).record.beatmap_id
}

/// Every member of a bucket is a row of that bucket, and different members are different rows.
proof fn lemma_bucket_members(
    rows: Seq<ManiaNormalizedRow>,
    key_count: u8,
    band: u8,
) -> (origin: Seq<int>)
    ensures
        ({
            let members = bucket_rows(rows, key_count, band);
            &&& origin.len() == members.len()
            &&& forall|i: int|
                0 <= i < members.len() ==> 0 <= #[trigger] origin[i] < rows.len()
                    && rows[origin[i]] == members[i] && rows[origin[i]].record.key_count
                    == key_count && rows[origin[i]].record.difficulty_band == band
            &&& forall|i: int, j: int|
                0 <= i < j < members.len() ==> #[trigger] origin[i] < #[trigger] origin[j]
            &&& forall|r: int|
                0 <= r < rows.len() && rows[r].record.key_count == key_count
                    && rows[r].record.difficulty_band == band ==> #[trigger] origin.contains(r)
        }),
    decreases rows.len(),
{
    if rows.len() == 0 {
        seq![]
    } else {
        let front = rows.drop_last();
        let before = lemma_bucket_members(front, key_count, band);
        let last = rows.len() - 1;
        let members = bucket_rows(rows, key_count, band);
        if rows.last().record.key_count == key_count && rows.last().record.difficulty_band == band {
            let origin = before.push(last);
            assert forall|i: int| 0 <= i < members.len() implies 0 <= #[trigger] origin[i]
                < rows.len() && rows[origin[i]] == members[i] && rows[origin[i]].record.key_count
                == key_count && rows[origin[i]].record.difficulty_band == band by {
                if i < before.len() {
                    assert(origin[i] == before[i]);
                    assert(front[before[i]] == members[i]);
                }
            }
            assert forall|i: int, j: int| 0 <= i < j < members.len() implies #[trigger] origin[i]
                < #[trigger] origin[j] by {
                assert(origin[i] == before[i]);
                assert(before[i] < front.len());
            }
            assert forall|r: int|
                0 <= r < rows.len() && rows[r].record.key_count == key_count
                    && rows[r].record.difficulty_band == band implies #[trigger] origin.contains(
                r,
            ) by {
                if r < last {
                    assert(front[r] == rows[r]);
                    assert(before.contains(r));
                    let p = choose|p: int| 0 <= p < before.len() && before[p] == r;
                    assert(origin[p] == r);
                } else {
                    assert(origin[before.len() as int] == r);
                }
            }
            origin
        } else {
            assert forall|i: int| 0 <= i < members.len() implies 0 <= #[trigger] before[i]
                < rows.len() && rows[before[i]] == members[i] && rows[before[i]].record.key_count
                == key_count && rows[before[i]].record.difficulty_band == band by {
                assert(front[before[i]] == members[i]);
            }
            assert forall|r: int|
                0 <= r < rows.len() && rows[r].record.key_count == key_count
                    && rows[r].record.difficulty_band == band implies #[trigger] before.contains(
                r,
            ) by {
                assert(front[r] == rows[r]);
            }
            before
        }
    }
}

/// Which row each entry of a bucket was made of: no row twice, and every row of the bucket.
proof fn lemma_entry_rows(
    rows: Seq<ManiaNormalizedRow>,
    key_count: u8,
    band: u8,
) -> (origin: Seq<int>)
    ensures
        ({
            let entries = bucket_entries(rows, key_count, band);
            &&& origin.len() == entries.len()
            &&& forall|i: int|
                0 <= i < entries.len() ==> 0 <= #[trigger] origin[i] < rows.len() && entries[i]
                    == entry_of(rows[origin[i]]) && rows[origin[i]].record.key_count == key_count
                    && rows[origin[i]].record.difficulty_band == band
            &&& forall|i: int, j: int|
                0 <= i < j < entries.len() ==> #[trigger] origin[i] != #[trigger] origin[j]
            &&& forall|r: int|
                0 <= r < rows.len() && rows[r].record.key_count == key_count
                    && rows[r].record.difficulty_band == band ==> #[trigger] origin.contains(r)
        }),
{
    let members = bucket_rows(rows, key_count, band);
    let keys = row_keys(members);
    let order = crate::sorting::stable_order(keys);
    crate::sorting::lemma_stable_order(keys);
    let source = lemma_bucket_members(rows, key_count, band);
    let entries = bucket_entries(rows, key_count, band);
    let origin = Seq::new(order.len(), |i: int| source[order[i]]);
    assert(order.len() == members.len());
    assert forall|i: int| 0 <= i < entries.len() implies 0 <= #[trigger] origin[i] < rows.len()
        && entries[i] == entry_of(rows[origin[i]]) && rows[origin[i]].record.key_count == key_count
        && rows[origin[i]].record.difficulty_band == band by {
        assert(0 <= order[i] < members.len());
        assert(rows[source[order[i]]] == members[order[i]]);
    }
    assert forall|i: int, j: int| 0 <= i < j < entries.len() implies #[trigger] origin[i]
        != #[trigger] origin[j] by {
        assert(crate::sorting::comes_before(keys, order[i], order[j]));
        assert(order[i] != order[j]);
        assert(0 <= order[i] < members.len() && 0 <= order[j] < members.len());
        if order[i] < order[j] {
            assert(source[order[i]] < source[order[j]]);
        } else {
            assert(source[order[j]] < source[order[i]]);
        }
    }
    assert forall|r: int|
        0 <= r < rows.len() && rows[r].record.key_count == key_count
            && rows[r].record.difficulty_band == band implies #[trigger] origin.contains(r) by {
        assert(source.contains(r));
        let m = choose|m: int| 0 <= m < source.len() && source[m] == r;
        assert(order.contains(m));
        let p = choose|p: int| 0 <= p < order.len() && order[p] == m;
        assert(origin[p] == r);
    }
    origin
}

/// Which row each placement of a built index was made of: no row twice, and every row.
proof fn lemma_placement_rows(
    rows: Seq<ManiaNormalizedRow>,
    buckets: Seq<ManiaBucket>,
    count: int,
) -> (origin: Seq<int>)
    requires
        buckets_of(rows, buckets),
        0 <= count <= buckets.len(),
    ensures
        ({
            let placements = index_placements(buckets.take(count));
            &&& origin.len() == placements.len()
            &&& forall|i: int|
                0 <= i < placements.len() ==> 0 <= #[trigger] origin[i] < rows.len()
                    && placements[i].0 == rows[origin[i]].record.beatmap_id && placements[i].1
                    == row_placement(rows[origin[i]]) && has_bucket(
                    buckets.take(count),
                    rows[origin[i]].record.key_count,
                    rows[origin[i]].record.difficulty_band,
                )
            &&& forall|i: int, j: int|
                0 <= i < j < placements.len() ==> #[trigger] origin[i] != #[trigger] origin[j]
            &&& forall|r: int|
                0 <= r < rows.len() && has_bucket(
                    buckets.take(count),
                    rows[r].record.key_count,
                    rows[r].record.difficulty_band,
                ) ==> #[trigger] origin.contains(r)
        }),
    decreases count,
{
    if count == 0 {
        seq![]
    } else {
        let now = buckets.take(count);
        let past = buckets.take(count - 1);
        assert(now.drop_last() =~= past);
        let bucket = buckets[count - 1];
        let before = lemma_placement_rows(rows, buckets, count - 1);
        let added = lemma_entry_rows(rows, bucket.key_count, bucket.difficulty_band);
        let origin = before + added;
        let placements = index_placements(now);
        assert forall|i: int| 0 <= i < placements.len() implies 0 <= #[trigger] origin[i]
            < rows.len() && placements[i].0 == rows[origin[i]].record.beatmap_id && placements[i].1
            == row_placement(rows[origin[i]]) && has_bucket(
            now,
            rows[origin[i]].record.key_count,
            rows[origin[i]].record.difficulty_band,
        ) by {
            if i < before.len() {
                let row = rows[before[i]].record;
                let b = choose|b: int|
                    0 <= b < past.len() && (#[trigger] past[b]).key_count == row.key_count
                        && past[b].difficulty_band == row.difficulty_band;
                assert(now[b] == past[b]);
            } else {
                let k = i - before.len();
                assert(origin[i] == added[k]);
                assert(bucket.entries@[k] == entry_of(rows[added[k]]));
                assert(now[count - 1] == bucket);
            }
        }
        assert forall|i: int, j: int| 0 <= i < j < placements.len() implies #[trigger] origin[i]
            != #[trigger] origin[j] by {
            if i >= before.len() {
                assert(origin[i] == added[i - before.len()]);
                assert(origin[j] == added[j - before.len()]);
            } else if j >= before.len() {
                assert(origin[i] == before[i]);
                assert(origin[j] == added[j - before.len()]);
                let row = rows[before[i]].record;
                let b = choose|b: int|
                    0 <= b < past.len() && (#[trigger] past[b]).key_count == row.key_count
                        && past[b].difficulty_band == row.difficulty_band;
                assert(buckets[b] == past[b]);
                assert(bucket_code(buckets[b].key_count, buckets[b].difficulty_band) < bucket_code(
                    buckets[count - 1].key_count,
                    buckets[count - 1].difficulty_band,
                ));
            } else {
                assert(origin[i] == before[i] && origin[j] == before[j]);
            }
        }
        assert forall|r: int|
            0 <= r < rows.len() && has_bucket(
                now,
                rows[r].record.key_count,
                rows[r].record.difficulty_band,
            ) implies #[trigger] origin.contains(r) by {
            let b = choose|b: int|
                0 <= b < now.len() && (#[trigger] now[b]).key_count == rows[r].record.key_count
                    && now[b].difficulty_band == rows[r].record.difficulty_band;
            if b < count - 1 {
                assert(past[b] == now[b]);
                assert(before.contains(r));
                let p = choose|p: int| 0 <= p < before.len() && before[p] == r;
                assert(origin[p] == r);
            } else {
                assert(added.contains(r));
                let p = choose|p: int| 0 <= p < added.len() && added[p] == r;
                assert(origin[before.len() + p] == r);
            }
        }
        origin
    }
}

proof fn lemma_row_placements(rows: Seq<ManiaNormalizedRow>)
    requires
        distinct_beatmaps(rows),
    ensures
        forall|r: int|
            0 <= r < rows.len() ==> row_placements(rows).contains_key(
                (#[trigger] rows[r]).record.beatmap_id,
            ) && row_placements(rows)[rows[r].record.beatmap_id] == row_placement(rows[r]),
        forall|id: u64| #[trigger]
            row_placements(rows).contains_key(id) ==> exists|r: int|
                0 <= r < rows.len() && (#[trigger] rows[r]).record.beatmap_id == id,
    decreases rows.len(),
{
    if rows.len() > 0 {
        let front = rows.drop_last();
        assert(distinct_beatmaps(front)) by {
            assert forall|i: int, j: int| 0 <= i < j < front.len() implies (
            #[trigger] front[i]).record.beatmap_id != (#[trigger] front[j]).record.beatmap_id by {
                assert(rows[i].record.beatmap_id != rows[j].record.beatmap_id);
            }
        }
        lemma_row_placements(front);
        assert forall|r: int| 0 <= r < rows.len() implies row_placements(rows).contains_key(
            (#[trigger] rows[r]).record.beatmap_id,
        ) && row_placements(rows)[rows[r].record.beatmap_id] == row_placement(rows[r]) by {
            if r < front.len() {
                assert(front[r] == rows[r]);
                assert(rows[r].record.beatmap_id != rows[rows.len() - 1].record.beatmap_id);
            }
        }
        assert forall|id: u64| #[trigger] row_placements(rows).contains_key(id) implies exists|
            r: int,
        |
            0 <= r < rows.len() && (#[trigger] rows[r]).record.beatmap_id == id by {
            if id == rows.last().record.beatmap_id {
                assert(rows[rows.len() - 1].record.beatmap_id == id);
            } else {
                assert(row_placements(front).contains_key(id));
                let r = choose|r: int|
                    0 <= r < front.len() && (#[trigger] front[r]).record.beatmap_id == id;
                assert(front[r] == rows[r]);
            }
        }
    }
}

proof fn lemma_placement_map_values(placements: Seq<(u64, ManiaPlacement)>)
    requires
        forall|i: int| 0 <= i < placements.len() ==> !#[trigger] repeats(placements, i),
    ensures
        forall|i: int|
            0 <= i < placements.len() ==> placement_map(placements).contains_key(
                (#[trigger] placements[i]).0,
            ) && placement_map(placements)[placements[i].0] == placements[i].1,
    decreases placements.len(),
{
    if placements.len() > 0 {
        let front = placements.drop_last();
        let last = placements.len() - 1;
        assert forall|i: int| 0 <= i < front.len() implies !#[trigger] repeats(front, i) by {
            if repeats(front, i) {
                let e = choose|e: int| 0 <= e < i && (#[trigger] front[e]).0 == front[i].0;
                assert(placements[e].0 == placements[i].0);
                assert(repeats(placements, i));
            }
        }
        lemma_placement_map_values(front);
        assert forall|i: int| 0 <= i < placements.len() implies placement_map(
            placements,
        ).contains_key((#[trigger] placements[i]).0) && placement_map(placements)[placements[i].0]
            == placements[i].1 by {
            if i < last {
                assert(front[i] == placements[i]);
                assert(!repeats(placements, last));
                assert(placements[i].0 != placements[last].0);
            }
        }
    }
}

proof fn lemma_first_repeat_none(placements: Seq<(u64, ManiaPlacement)>, from: int)
    requires
        0 <= from,
    ensures
        first_repeat(placements, from) is None <==> forall|i: int|
            from <= i < placements.len() ==> !#[trigger] repeats(placements, i),
        first_repeat(placements, from) matches Some(at) ==> from <= at < placements.len()
            && repeats(placements, at),
    decreases placements.len() - from,
{
    if from < placements.len() && !repeats(placements, from) {
        lemma_first_repeat_none(placements, from + 1);
    }
}

/// The index that is built of a dataset covers the dataset, unless a beatmap occurs twice in
/// it: then, and only then, checking the index reports a repeated beatmap.
pub proof fn law_built_index_covers_its_dataset(
    rows: Seq<ManiaNormalizedRow>,
    version: u32,
    index: ManiaBucketIndex,
)
    requires
        index.normalization_version == version,
        index.analyzer_version == MANIA_ANALYZER_VERSION,
        buckets_of(rows, index.buckets@),
    ensures
        match coverage(rows, version, index) {
            Ok(_) => distinct_beatmaps(rows),
            Err(error) => !distinct_beatmaps(rows) && error is DuplicateBeatmap,
        },
{
    let buckets = index.buckets@;
    let placements = index_placements(buckets);
    assert(buckets.take(buckets.len() as int) =~= buckets);
    let origin = lemma_placement_rows(rows, buckets, buckets.len() as int);
    lemma_first_repeat_none(placements, 0);
    if distinct_beatmaps(rows) {
        assert forall|i: int| 0 <= i < placements.len() implies !#[trigger] repeats(
            placements,
            i,
        ) by {
            if repeats(placements, i) {
                let e = choose|e: int| 0 <= e < i && (#[trigger] placements[e]).0
                    == placements[i].0;
                assert(origin[e] != origin[i]);
                assert(rows[origin[e]].record.beatmap_id == rows[origin[i]].record.beatmap_id);
                if origin[e] < origin[i] {
                    assert(false);
                } else {
                    assert(false);
                }
            }
        }
        lemma_placement_map_values(placements);
        lemma_row_placements(rows);
        assert forall|id: u64|
            #![trigger placement_map(placements).contains_key(id)]
            #![trigger row_placements(rows).contains_key(id)]
            placement_map(placements).contains_key(id) == row_placements(rows).contains_key(id) && (
            placement_map(placements).contains_key(id) ==> placement_map(placements)[id]
                == row_placements(rows)[id]) by {
            lemma_placement_map_keys(placements, id);
            if placement_map(placements).contains_key(id) {
                let i = choose|i: int| 0 <= i < placements.len() && (#[trigger] placements[i]).0
                    == id;
                assert(rows[origin[i]].record.beatmap_id == id);
            }
            if row_placements(rows).contains_key(id) {
                let r = choose|r: int|
                    0 <= r < rows.len() && (#[trigger] rows[r]).record.beatmap_id == id;
                assert(origin.contains(r));
                let i = choose|i: int| 0 <= i < origin.len() && origin[i] == r;
                assert(placements[i].0 == id);
            }
        }
        assert(placement_map(placements) =~= row_placements(rows));
    } else {
        let (i, j) = choose|i: int, j: int|
            0 <= i < j < rows.len() && (#[trigger] rows[i]).record.beatmap_id == (
            #[trigger] rows[j]).record.beatmap_id;
        assert(origin.contains(i) && origin.contains(j));
        let p = choose|p: int| 0 <= p < origin.len() && origin[p] == i;
        let q = choose|q: int| 0 <= q < origin.len() && origin[q] == j;
        assert(placements[p].0 == placements[q].0);
        if p < q {
            assert(repeats(placements, q));
        } else {
            assert(repeats(placements, p));
        }
    }
}

/// Building the index of the same dataset again gives the same buckets with the same entries.
pub proof fn law_building_is_deterministic(
    rows: Seq<ManiaNormalizedRow>,
    left: Seq<ManiaBucket>,
    right: Seq<ManiaBucket>,
)
    requires
        buckets_of(rows, left),
        buckets_of(rows, right),
    ensures
        left.len() == right.len(),
        forall|i: int|
            0 <= i < left.len() ==> (#[trigger] left[i]).key_count == right[i].key_count
                && left[i].difficulty_band == right[i].difficulty_band && left[i].entries@
                == right[i].entries@,
{
    let codes_left = Seq::new(
        left.len(),
        |i: int| bucket_code(left[i].key_count, left[i].difficulty_band),
    );
    let codes_right = Seq::new(
        right.len(),
        |i: int| bucket_code(right[i].key_count, right[i].difficulty_band),
    );
    let ids = codes_left.to_set();
    assert forall|code: int| #[trigger] codes_left.contains(code) <==> codes_right.contains(
        code,
    ) by {
        if codes_left.contains(code) {
            let i = choose|i: int| 0 <= i < codes_left.len() && codes_left[i] == code;
            lemma_bucket_in_both(rows, left, right, i);
            let b = choose|b: int|
                0 <= b < right.len() && (#[trigger] right[b]).key_count == left[i].key_count
                    && right[b].difficulty_band == left[i].difficulty_band;
            assert(codes_right[b] == code);
        }
        if codes_right.contains(code) {
            let i = choose|i: int| 0 <= i < codes_right.len() && codes_right[i] == code;
            lemma_bucket_in_both(rows, right, left, i);
            let b = choose|b: int|
                0 <= b < left.len() && (#[trigger] left[b]).key_count == right[i].key_count
                    && left[b].difficulty_band == right[i].difficulty_band;
            assert(codes_left[b] == code);
        }
    }
    assert forall|code: int| #[trigger] codes_left.contains(code) <==> ids.contains(code) by {}
    assert forall|code: int| #[trigger] codes_right.contains(code) <==> ids.contains(code) by {
        assert(codes_left.contains(code) <==> ids.contains(code));
    }
    assert forall|i: int, j: int| 0 <= i < j < codes_left.len() implies #[trigger] codes_left[i]
        < #[trigger] codes_left[j] by {
        assert(bucket_code(left[i].key_count, left[i].difficulty_band) < bucket_code(
            left[j].key_count,
            left[j].difficulty_band,
        ));
    }
    assert forall|i: int, j: int| 0 <= i < j < codes_right.len() implies #[trigger] codes_right[i]
        < #[trigger] codes_right[j] by {
        assert(bucket_code(right[i].key_count, right[i].difficulty_band) < bucket_code(
            right[j].key_count,
            right[j].difficulty_band,
        ));
    }
    crate::ordered::lemma_lists_is_unique(codes_left, codes_right, ids);
    assert forall|i: int| 0 <= i < left.len() implies (#[trigger] left[i]).key_count
        == right[i].key_count && left[i].difficulty_band == right[i].difficulty_band
        && left[i].entries@ == right[i].entries@ by {
        assert(codes_left[i] == codes_right[i]);
        assert(right[i].entries@ == bucket_entries(
            rows,
            right[i].key_count,
            right[i].difficulty_band,
        ));
    }
}

proof fn lemma_bucket_in_both(
    rows: Seq<ManiaNormalizedRow>,
    left: Seq<ManiaBucket>,
    right: Seq<ManiaBucket>,
    i: int,
)
    requires
        buckets_of(rows, left),
        buckets_of(rows, right),
        0 <= i < left.len(),
    ensures
        has_bucket(right, left[i].key_count, left[i].difficulty_band),
{
    let origin = lemma_entry_rows(rows, left[i].key_count, left[i].difficulty_band);
    assert(left[i].entries@.len() > 0);
    assert(0 <= origin[0] < rows.len());
    assert(has_bucket(
        right,
        rows[origin[0]].record.key_count,
        rows[origin[0]].record.difficulty_band,
    ));
}

/// Every result of a query is another beatmap than the target, not of its set unless that was
/// asked for, and of its key count. There are at most as many results as asked for, nearer
/// ones come first, and of results at the same distance the one with the smaller identifier. No
/// beatmap is among them twice.
pub proof fn law_query_results(
    store: ManiaFeatureStore,
    version: u32,
    buckets: Seq<ManiaBucket>,
    target: ManiaFeatureRecord,
    query: ManiaSimilarityQuery,
    distances: Seq<ManiaDistance>,
    results: Vec<ManiaSimilarityResult>,
)
    requires
        distances.len() == selection(buckets, target, query).len(),
        answers(
            store,
            version,
            target.key_count,
            selection(buckets, target, query),
            distances,
            query.result_limit as int,
            Ok(results),
        ),
    ensures
        results@.len() <= query.result_limit,
        forall|k: int|
            0 <= k < results@.len() ==> (#[trigger] results@[k]).beatmap_id != target.beatmap_id
                && results@[k].key_count == target.key_count && (!query.include_same_set
                && target.beatmapset_id != 0 ==> results@[k].beatmapset_id
                != target.beatmapset_id),
        forall|i: int, j: int|
            0 <= i < j < results@.len() ==> {
                let near = (#[trigger] results@[i]);
                let far = (#[trigger] results@[j]);
                ||| near.final_distance.total_key() < far.final_distance.total_key()
                ||| (near.final_distance == far.final_distance && near.beatmap_id < far.beatmap_id)
            },
        forall|i: int, j: int|
            0 <= i < j < results@.len() ==> (#[trigger] results@[i]).beatmap_id != (
            #[trigger] results@[j]).beatmap_id,
{
    let entries = selection(buckets, target, query);
    let records = records_of(store.rows@, version, entries);
    let keys = distance_keys(entries, distances);
    let order = crate::sorting::stable_order(keys);
    let shown = nearest(entries, distances, query.result_limit as int);
    crate::sorting::lemma_stable_order(keys);
    assert(first_mismatch(records, entries, target.key_count, 0) is None);
    let map = gathered_within(buckets, target, search_radius(buckets, target, query, 0));
    let wanted = eligible_ids(map, target, query.include_same_set);
    let ids = crate::ordered::increasing(wanted);
    crate::ordered::lemma_increasing_lists(wanted);
    lemma_gathered_keys(buckets, target, search_radius(buckets, target, query, 0));
    assert forall|i: int| 0 <= i < entries.len() implies !excluded(
        target,
        #[trigger] entries[i],
        query.include_same_set,
    ) && matches_entry(records[i], entries[i], target.key_count) && entries[i].beatmap_id
        == ids[i] by {
        assert(ids.contains(ids[i]));
        assert(wanted.contains(ids[i]));
        lemma_no_mismatch(records, entries, target.key_count, 0, i);
    }
    assert forall|k: int| 0 <= k < shown.len() implies 0 <= #[trigger] shown[k] < entries.len()
        && shown[k] == order[k] by {
        assert(0 <= order[k] < keys.len());
    }
    assert forall|i: int, j: int| 0 <= i < j < results@.len() implies {
        let near = (#[trigger] results@[i]);
        let far = (#[trigger] results@[j]);
        ||| near.final_distance.total_key() < far.final_distance.total_key()
        ||| (near.final_distance == far.final_distance && near.beatmap_id < far.beatmap_id)
    } by {
        let a = shown[i];
        let b = shown[j];
        assert(crate::sorting::comes_before(keys, order[i], order[j]));
        assert(entries[a].beatmap_id == ids[a] && entries[b].beatmap_id == ids[b]);
        let left = distances[a].final_distance;
        let right = distances[b].final_distance;
        crate::float_bits::lemma_total_order_is_injective(left, right);
        assert(keys[a].drop_first() =~= seq![entries[a].beatmap_id as int]);
        assert(keys[b].drop_first() =~= seq![entries[b].beatmap_id as int]);
        reveal_with_fuel(crate::sorting::lex_le, 3);
        if a < b {
            assert(ids[a] < ids[b]);
        } else {
            assert(ids[b] < ids[a]);
        }
        assert(describes(
            results@[i],
            records[a],
            distances[a],
            store.metadata@[entries[a].beatmap_id],
        ));
        assert(describes(
            results@[j],
            records[b],
            distances[b],
            store.metadata@[entries[b].beatmap_id],
        ));
    }
    assert forall|i: int, j: int| 0 <= i < j < results@.len() implies (
    #[trigger] results@[i]).beatmap_id != (#[trigger] results@[j]).beatmap_id by {
        let a = shown[i];
        let b = shown[j];
        assert(crate::sorting::comes_before(keys, order[i], order[j]));
        assert(entries[a].beatmap_id == ids[a] && entries[b].beatmap_id == ids[b]);
        if a < b {
            assert(ids[a] < ids[b]);
        } else {
            assert(ids[b] < ids[a]);
        }
        assert(describes(
            results@[i],
            records[a],
            distances[a],
            store.metadata@[entries[a].beatmap_id],
        ));
        assert(describes(
            results@[j],
            records[b],
            distances[b],
            store.metadata@[entries[b].beatmap_id],
        ));
    }
}

/// Whether two results say the same.
pub open spec fn same_result(left: ManiaSimilarityResult, right: ManiaSimilarityResult) -> bool {
    &&& left.beatmap_id == right.beatmap_id
    &&& left.beatmapset_id == right.beatmapset_id
    &&& left.artist@ == right.artist@
    &&& left.title@ == right.title@
    &&& left.version@ == right.version@
    &&& left.key_count == right.key_count
    &&& left.mode_family == right.mode_family
    &&& left.dominant_pattern == right.dominant_pattern
    &&& left.difficulty_percentile == right.difficulty_percentile
    &&& left.difficulty_band == right.difficulty_band
    &&& left.final_distance == right.final_distance
    &&& left.components == right.components
}

/// Of two queries for at most sixteen results that differ in their limits alone, both look at the
/// same candidates, and where the one with the larger limit is answered, so is the other, with
/// the first of its results. Larger limits may widen the search.
pub proof fn law_smaller_limits_cut_the_results(
    store: ManiaFeatureStore,
    version: u32,
    buckets: Seq<ManiaBucket>,
    target: ManiaFeatureRecord,
    few: ManiaSimilarityQuery,
    many: ManiaSimilarityQuery,
    distances: Seq<ManiaDistance>,
    outcome: Result<Vec<ManiaSimilarityResult>, ManiaIndexError>,
    more: Vec<ManiaSimilarityResult>,
)
    requires
        few.include_same_set == many.include_same_set,
        few.result_limit <= many.result_limit <= 16,
        distances.len() == selection(buckets, target, many).len(),
        answers(
            store,
            version,
            target.key_count,
            selection(buckets, target, few),
            distances,
            few.result_limit as int,
            outcome,
        ),
        answers(
            store,
            version,
            target.key_count,
            selection(buckets, target, many),
            distances,
            many.result_limit as int,
            Ok(more),
        ),
    ensures
        selection(buckets, target, few) == selection(buckets, target, many),
        outcome matches Ok(fewer) && fewer@.len() == if more@.len() <= few.result_limit {
            more@.len() as int
        } else {
            few.result_limit as int
        } && forall|k: int|
            0 <= k < fewer@.len() ==> same_result(#[trigger] fewer@[k], more@[k]),
{
    lemma_same_search(buckets, target, few, many, 0);
    let entries = selection(buckets, target, many);
    let records = records_of(store.rows@, version, entries);
    let order = crate::sorting::stable_order(distance_keys(entries, distances));
    let shorter = nearest(entries, distances, few.result_limit as int);
    let longer = nearest(entries, distances, many.result_limit as int);
    assert(shorter.len() <= longer.len());
    assert forall|k: int| 0 <= k < shorter.len() implies shorter[k] == longer[k] by {
        assert(shorter[k] == order[k]);
    }
    lemma_labelled_prefix(store.metadata@, entries, shorter, longer, 0);
    if let Ok(fewer) = outcome {
        assert forall|k: int| 0 <= k < fewer@.len() implies same_result(
            #[trigger] fewer@[k],
            more@[k],
        ) by {
            assert(describes(
                more@[k],
                records[longer[k]],
                distances[longer[k]],
                store.metadata@[entries[longer[k]].beatmap_id],
            ));
        }
    }
}

proof fn lemma_same_search(
    buckets: Seq<ManiaBucket>,
    target: ManiaFeatureRecord,
    few: ManiaSimilarityQuery,
    many: ManiaSimilarityQuery,
    radius: nat,
)
    requires
        few.include_same_set == many.include_same_set,
        few.result_limit <= 16,
        many.result_limit <= 16,
    ensures
        search_radius(buckets, target, few, radius) == search_radius(buckets, target, many, radius),
    decreases 9 - radius,
{
    if radius < 9 {
        lemma_same_search(buckets, target, few, many, radius + 1);
    }
}

proof fn lemma_labelled_prefix(
    metadata: Map<u64, ManiaBeatmapMetadata>,
    entries: Seq<ManiaBucketEntry>,
    shorter: Seq<int>,
    longer: Seq<int>,
    from: int,
)
    requires
        0 <= from,
        shorter.len() <= longer.len(),
        forall|k: int| 0 <= k < shorter.len() ==> shorter[k] == longer[k],
        first_unlabelled(metadata, entries, longer, from) is None,
    ensures
        first_unlabelled(metadata, entries, shorter, from) is None,
    decreases shorter.len() - from,
{
    if from < shorter.len() {
        assert(shorter[from] == longer[from]);
        lemma_labelled_prefix(metadata, entries, shorter, longer, from + 1);
    }
}

proof fn lemma_no_mismatch(
    records: Seq<ManiaFeatureRecord>,
    entries: Seq<ManiaBucketEntry>,
    key_count: u8,
    from: int,
    at: int,
)
    requires
        0 <= from <= at < entries.len(),
        first_mismatch(records, entries, key_count, from) is None,
    ensures
        matches_entry(records[at], entries[at], key_count),
    decreases at - from,
{
    if from < at {
        lemma_no_mismatch(records, entries, key_count, from + 1, at);
    }
}

spec fn keyed_by_beatmap(gathered: Map<u64, ManiaBucketEntry>) -> bool {
    forall|id: u64| #[trigger] gathered.contains_key(id) ==> gathered[id].beatmap_id == id
}

proof fn lemma_with_entries_keys(
    gathered: Map<u64, ManiaBucketEntry>,
    entries: Seq<ManiaBucketEntry>,
)
    requires
        keyed_by_beatmap(gathered),
    ensures
        keyed_by_beatmap(with_entries(gathered, entries)),
    decreases entries.len(),
{
    if entries.len() > 0 {
        lemma_with_entries_keys(gathered, entries.drop_last());
    }
}

proof fn lemma_with_band_keys(
    gathered: Map<u64, ManiaBucketEntry>,
    buckets: Seq<ManiaBucket>,
    key_count: u8,
    band: int,
)
    requires
        keyed_by_beatmap(gathered),
    ensures
        keyed_by_beatmap(with_band(gathered, buckets, key_count, band)),
{
    if let Some(b) = first_bucket(buckets, key_count, band, 0) {
        lemma_with_entries_keys(gathered, buckets[b].entries@);
    }
}

proof fn lemma_gathered_keys(
    buckets: Seq<ManiaBucket>,
    target: ManiaFeatureRecord,
    radius: nat,
)
    ensures
        keyed_by_beatmap(gathered_within(buckets, target, radius)),
    decreases radius,
{
    let center = target.difficulty_band as int;
    if radius == 0 {
        lemma_with_band_keys(Map::empty(), buckets, target.key_count, center);
    } else {
        let inner = gathered_within(buckets, target, (radius - 1) as nat);
        lemma_gathered_keys(buckets, target, (radius - 1) as nat);
        lemma_with_band_keys(inner, buckets, target.key_count, center - radius);
        lemma_with_band_keys(
            with_band(inner, buckets, target.key_count, center - radius),
            buckets,
            target.key_count,
            center + radius,
        );
    }
}

// What a search finds

/// Adding entries keeps what was gathered, adds a beatmap for every entry, and takes the entry of
/// each of these beatmaps from the added ones.
proof fn lemma_with_entries_finds(
    gathered: Map<u64, ManiaBucketEntry>,
    entries: Seq<ManiaBucketEntry>,
)
    ensures
        ({
            let all = with_entries(gathered, entries);
            &&& forall|id: u64| #[trigger]
                all.contains_key(id) ==> (gathered.contains_key(id) && all[id] == gathered[id])
                    || exists|i: int|
                    0 <= i < entries.len() && (#[trigger] entries[i]).beatmap_id == id && all[id]
                        == entries[i]
            &&& forall|id: u64| #[trigger] gathered.contains_key(id) ==> all.contains_key(id)
            &&& forall|i: int|
                0 <= i < entries.len() ==> all.contains_key((#[trigger] entries[i]).beatmap_id)
        }),
    decreases entries.len(),
{
    if entries.len() > 0 {
        let front = entries.drop_last();
        let some = with_entries(gathered, front);
        let all = with_entries(gathered, entries);
        lemma_with_entries_finds(gathered, front);
        assert forall|id: u64| #[trigger] all.contains_key(id) implies (gathered.contains_key(id)
            && all[id] == gathered[id]) || exists|i: int|
            0 <= i < entries.len() && (#[trigger] entries[i]).beatmap_id == id && all[id]
                == entries[i] by {
            if id == entries.last().beatmap_id {
                assert(entries[entries.len() - 1].beatmap_id == id);
            } else {
                assert(some.contains_key(id));
                if !(gathered.contains_key(id) && some[id] == gathered[id]) {
                    let i = choose|i: int|
                        0 <= i < front.len() && (#[trigger] front[i]).beatmap_id == id && some[id]
                            == front[i];
                    assert(entries[i] == front[i]);
                }
            }
        }
        assert forall|i: int| 0 <= i < entries.len() implies all.contains_key(
            (#[trigger] entries[i]).beatmap_id,
        ) by {
            if i < front.len() {
                assert(front[i] == entries[i]);
            }
        }
    }
}

proof fn lemma_first_bucket_is_first(
    buckets: Seq<ManiaBucket>,
    key_count: u8,
    band: int,
    from: int,
)
    requires
        0 <= from,
    ensures
        match first_bucket(buckets, key_count, band, from) {
            Some(b) => from <= b < buckets.len() && buckets[b].key_count == key_count
                && buckets[b].difficulty_band == band && forall|c: int|
                from <= c < b ==> !((#[trigger] buckets[c]).key_count == key_count
                    && buckets[c].difficulty_band == band),
            None => forall|c: int|
                from <= c < buckets.len() ==> !((#[trigger] buckets[c]).key_count == key_count
                    && buckets[c].difficulty_band == band),
        },
    decreases buckets.len() - from,
{
    if from < buckets.len() && !(buckets[from].key_count == key_count
        && buckets[from].difficulty_band == band) {
        lemma_first_bucket_is_first(buckets, key_count, band, from + 1);
    }
}

/// Whether the bucket at `b` is the one for its band, and its band is at most `radius` away from
/// the target's.
spec fn is_near(
    buckets: Seq<ManiaBucket>,
    target: ManiaFeatureRecord,
    radius: int,
    b: int,
) -> bool {
    &&& 0 <= b < buckets.len()
    &&& buckets[b].key_count == target.key_count
    &&& buckets[b].difficulty_band <= 9
    &&& target.difficulty_band - radius <= buckets[b].difficulty_band <= target.difficulty_band
        + radius
    &&& forall|c: int|
        0 <= c < b ==> !((#[trigger] buckets[c]).key_count == target.key_count
            && buckets[c].difficulty_band == buckets[b].difficulty_band)
}

proof fn lemma_gathered_finds(
    buckets: Seq<ManiaBucket>,
    target: ManiaFeatureRecord,
    radius: nat,
)
    ensures
        ({
            let all = gathered_within(buckets, target, radius);
            &&& forall|id: u64| #[trigger]
                all.contains_key(id) ==> exists|b: int, i: int|
                    #![trigger buckets[b].entries@[i]]
                    is_near(buckets, target, radius as int, b) && 0 <= i
                        < buckets[b].entries@.len() && buckets[b].entries@[i].beatmap_id == id
                        && all[id] == buckets[b].entries@[i]
            &&& forall|b: int, i: int|
                is_near(buckets, target, radius as int, b) && 0 <= i < buckets[b].entries@.len()
                    ==> all.contains_key((#[trigger] buckets[b].entries@[i]).beatmap_id)
        }),
    decreases radius,
{
    let center = target.difficulty_band as int;
    let empty = Map::<u64, ManiaBucketEntry>::empty();
    if radius == 0 {
        lemma_band_finds(empty, buckets, target, center);
    } else {
        let inner = gathered_within(buckets, target, (radius - 1) as nat);
        let lower = with_band(inner, buckets, target.key_count, center - radius);
        lemma_gathered_finds(buckets, target, (radius - 1) as nat);
        lemma_band_finds(inner, buckets, target, center - radius);
        lemma_band_finds(lower, buckets, target, center + radius);
        let all = gathered_within(buckets, target, radius);
        assert forall|id: u64| #[trigger] all.contains_key(id) implies exists|b: int, i: int|
            #![trigger buckets[b].entries@[i]]
            is_near(buckets, target, radius as int, b) && 0 <= i < buckets[b].entries@.len()
                && buckets[b].entries@[i].beatmap_id == id && all[id] == buckets[b].entries@[i] by {
            if !exists|b: int, i: int|
                #![trigger buckets[b].entries@[i]]
                is_near(buckets, target, radius as int, b) && buckets[b].difficulty_band == center
                    + radius && 0 <= i < buckets[b].entries@.len()
                    && buckets[b].entries@[i].beatmap_id == id && all[id]
                    == buckets[b].entries@[i] {
                assert(lower.contains_key(id) && all[id] == lower[id]);
                if !exists|b: int, i: int|
                    #![trigger buckets[b].entries@[i]]
                    is_near(buckets, target, radius as int, b) && buckets[b].difficulty_band
                        == center - radius && 0 <= i < buckets[b].entries@.len()
                        && buckets[b].entries@[i].beatmap_id == id && all[id]
                        == buckets[b].entries@[i] {
                    assert(inner.contains_key(id) && lower[id] == inner[id]);
                    let (b, i) = choose|b: int, i: int|
                        #![trigger buckets[b].entries@[i]]
                        is_near(buckets, target, radius - 1, b) && 0 <= i
                            < buckets[b].entries@.len() && buckets[b].entries@[i].beatmap_id == id
                            && inner[id] == buckets[b].entries@[i];
                    assert(is_near(buckets, target, radius as int, b));
                    assert(all[id] == buckets[b].entries@[i]);
                }
            }
        }
        assert forall|b: int, i: int|
            is_near(buckets, target, radius as int, b) && 0 <= i
                < buckets[b].entries@.len() implies all.contains_key(
            (#[trigger] buckets[b].entries@[i]).beatmap_id,
        ) by {
            let id = buckets[b].entries@[i].beatmap_id;
            if is_near(buckets, target, radius - 1, b) {
                assert(inner.contains_key(id));
            } else {
                assert(buckets[b].difficulty_band == center - radius || buckets[b].difficulty_band
                    == center + radius);
            }
            assert(inner.contains_key(id) || lower.contains_key(id) || all.contains_key(id));
        }
    }
}

proof fn lemma_band_finds(
    gathered: Map<u64, ManiaBucketEntry>,
    buckets: Seq<ManiaBucket>,
    target: ManiaFeatureRecord,
    band: int,
)
    ensures
        ({
            let all = with_band(gathered, buckets, target.key_count, band);
            &&& forall|id: u64| #[trigger]
                all.contains_key(id) ==> (gathered.contains_key(id) && all[id] == gathered[id])
                    || exists|b: int, i: int|
                    #![trigger buckets[b].entries@[i]]
                    (forall|radius: int|
                        target.difficulty_band - radius <= band <= target.difficulty_band + radius
                            ==> #[trigger] is_near(buckets, target, radius, b))
                        && buckets[b].difficulty_band == band && 0 <= i
                        < buckets[b].entries@.len() && buckets[b].entries@[i].beatmap_id == id
                        && all[id] == buckets[b].entries@[i]
            &&& forall|id: u64| #[trigger] gathered.contains_key(id) ==> all.contains_key(id)
            &&& forall|b: int, i: int, radius: int|
                #[trigger] is_near(buckets, target, radius, b) && buckets[b].difficulty_band
                    == band && 0 <= i < buckets[b].entries@.len() ==> all.contains_key(
                    (#[trigger] buckets[b].entries@[i]).beatmap_id,
                )
        }),
{
    lemma_first_bucket_is_first(buckets, target.key_count, band, 0);
    if 0 <= band <= 9 {
        if let Some(b) = first_bucket(buckets, target.key_count, band, 0) {
            let entries = buckets[b].entries@;
            let all = with_band(gathered, buckets, target.key_count, band);
            lemma_with_entries_finds(gathered, entries);
            assert forall|radius: int|
                target.difficulty_band - radius <= band <= target.difficulty_band
                    + radius implies #[trigger] is_near(buckets, target, radius, b) by {}
            assert forall|id: u64| #[trigger] all.contains_key(id) && !(gathered.contains_key(id)
                && all[id] == gathered[id]) implies exists|c: int, i: int|
                #![trigger buckets[c].entries@[i]]
                (forall|radius: int|
                    target.difficulty_band - radius <= band <= target.difficulty_band + radius
                        ==> #[trigger] is_near(buckets, target, radius, c))
                    && buckets[c].difficulty_band == band && 0 <= i < buckets[c].entries@.len()
                    && buckets[c].entries@[i].beatmap_id == id && all[id]
                    == buckets[c].entries@[i] by {
                let i = choose|i: int|
                    0 <= i < entries.len() && (#[trigger] entries[i]).beatmap_id == id && all[id]
                        == entries[i];
                assert(buckets[b].entries@[i] == entries[i]);
            }
            assert forall|c: int, i: int, radius: int|
                #[trigger] is_near(buckets, target, radius, c) && buckets[c].difficulty_band
                    == band && 0 <= i < buckets[c].entries@.len() implies all.contains_key(
                (#[trigger] buckets[c].entries@[i]).beatmap_id,
            ) by {
                if c < b {
                    assert(!(buckets[c].key_count == target.key_count
                        && buckets[c].difficulty_band == band));
                } else if b < c {
                    assert(!(buckets[b].key_count == target.key_count
                        && buckets[b].difficulty_band == buckets[c].difficulty_band));
                }
                assert(entries[i] == buckets[c].entries@[i]);
            }
        } else {
            assert forall|c: int, i: int, radius: int|
                #[trigger] is_near(buckets, target, radius, c) && buckets[c].difficulty_band
                    == band && 0 <= i < buckets[c].entries@.len() implies with_band(
                gathered,
                buckets,
                target.key_count,
                band,
            ).contains_key((#[trigger] buckets[c].entries@[i]).beatmap_id) by {
                assert(!(buckets[c].key_count == target.key_count && buckets[c].difficulty_band
                    == band));
            }
        }
    }
}

/// Every candidate is an entry of a bucket of the target's key count whose band is at most as far
/// from the target's, up or down, as the search went. It is not the target, and unless the
/// target's set is asked for or has no identifier, not of that set. Candidates come by increasing
/// identifier, so none of them comes twice.
pub proof fn law_candidates_are_near_and_not_left_out(
    buckets: Seq<ManiaBucket>,
    target: ManiaFeatureRecord,
    query: ManiaSimilarityQuery,
)
    ensures
        forall|k: int|
            0 <= k < selection(buckets, target, query).len() ==> exists|b: int, i: int|
                #![trigger buckets[b].entries@[i]]
                0 <= b < buckets.len() && 0 <= i < buckets[b].entries@.len()
                    && buckets[b].key_count == target.key_count && buckets[b].difficulty_band <= 9
                    && target.difficulty_band - search_radius(buckets, target, query, 0)
                    <= buckets[b].difficulty_band <= target.difficulty_band + search_radius(
                    buckets,
                    target,
                    query,
                    0,
                ) && buckets[b].entries@[i] == #[trigger] selection(buckets, target, query)[k],
        forall|k: int|
            0 <= k < selection(buckets, target, query).len() ==> (#[trigger] selection(
                buckets,
                target,
                query,
            )[k]).beatmap_id != target.beatmap_id && (query.include_same_set
                || target.beatmapset_id == 0 || selection(buckets, target, query)[k].beatmapset_id
                != target.beatmapset_id),
        forall|i: int, j: int|
            0 <= i < j < selection(buckets, target, query).len() ==> (#[trigger] selection(
                buckets,
                target,
                query,
            )[i]).beatmap_id < (#[trigger] selection(buckets, target, query)[j]).beatmap_id,
        search_radius(buckets, target, query, 0) <= 9,
{
    let radius = search_radius(buckets, target, query, 0);
    let map = gathered_within(buckets, target, radius);
    let wanted = eligible_ids(map, target, query.include_same_set);
    let ids = crate::ordered::increasing(wanted);
    let found = selection(buckets, target, query);
    crate::ordered::lemma_increasing_lists(wanted);
    lemma_search_radius(buckets, target, query, 0);
    lemma_gathered_finds(buckets, target, radius);
    lemma_gathered_keys(buckets, target, radius);
    assert forall|k: int| 0 <= k < found.len() implies map.contains_key(ids[k] as u64)
        && 0 <= ids[k] <= u64::MAX && !excluded(
        target,
        #[trigger] found[k],
        query.include_same_set,
    ) && found[k].beatmap_id == ids[k] && found[k] == map[ids[k] as u64] by {
        assert(ids.contains(ids[k]));
        assert(wanted.contains(ids[k]));
    }
    assert forall|i: int, j: int| 0 <= i < j < found.len() implies (#[trigger] found[i]).beatmap_id
        < (#[trigger] found[j]).beatmap_id by {
        assert(ids[i] < ids[j]);
    }
}

proof fn lemma_search_radius(
    buckets: Seq<ManiaBucket>,
    target: ManiaFeatureRecord,
    query: ManiaSimilarityQuery,
    from: nat,
)
    requires
        from <= 9,
    ensures
        ({
            let radius = search_radius(buckets, target, query, from);
            &&& from <= radius <= 9
            &&& radius < 9 ==> enough(
                eligible_entries(
                    gathered_within(buckets, target, radius),
                    target,
                    query.include_same_set,
                ),
                target,
                query,
            )
            &&& forall|r: nat|
                from <= r < radius ==> !enough(
                    eligible_entries(
                        #[trigger] gathered_within(buckets, target, r),
                        target,
                        query.include_same_set,
                    ),
                    target,
                    query,
                )
        }),
    decreases 9 - from,
{
    let entries = eligible_entries(
        gathered_within(buckets, target, from),
        target,
        query.include_same_set,
    );
    if from < 9 && !enough(entries, target, query) {
        lemma_search_radius(buckets, target, query, from + 1);
    }
}

proof fn lemma_family_count(entries: Seq<ManiaBucketEntry>, family: ManiaModeFamily)
    ensures
        family_count(entries, family) == entries.filter(
            |entry: ManiaBucketEntry| entry.mode_family == family,
        ).len(),
    decreases entries.len(),
{
    reveal(Seq::filter);
    if entries.len() > 0 {
        lemma_family_count(entries.drop_last(), family);
    }
}

/// Nothing near is missed: an entry of a bucket of the target's key count whose band is within
/// the radius of the search, up or down, is a candidate unless it is the target or of a set that
/// is left out. The bucket is the first for its band, and no other bucket of the key count holds
/// the beatmap too.
pub proof fn law_near_entries_are_candidates(
    buckets: Seq<ManiaBucket>,
    target: ManiaFeatureRecord,
    query: ManiaSimilarityQuery,
    b: int,
    i: int,
)
    requires
        0 <= b < buckets.len(),
        0 <= i < buckets[b].entries@.len(),
        buckets[b].key_count == target.key_count,
        buckets[b].difficulty_band <= 9,
        target.difficulty_band - search_radius(buckets, target, query, 0)
            <= buckets[b].difficulty_band <= target.difficulty_band + search_radius(
            buckets,
            target,
            query,
            0,
        ),
        buckets[b].entries@[i].beatmap_id != target.beatmap_id,
        query.include_same_set || target.beatmapset_id == 0
            || buckets[b].entries@[i].beatmapset_id != target.beatmapset_id,
        forall|c: int|
            0 <= c < b ==> !((#[trigger] buckets[c]).key_count == buckets[b].key_count
                && buckets[c].difficulty_band == buckets[b].difficulty_band),
        forall|c: int, j: int|
            0 <= c < buckets.len() && 0 <= j < buckets[c].entries@.len() && buckets[c].key_count
                == target.key_count && (#[trigger] buckets[c].entries@[j]).beatmap_id
                == buckets[b].entries@[i].beatmap_id ==> c == b && j == i,
    ensures
        selection(buckets, target, query).contains(buckets[b].entries@[i]),
{
    let radius = search_radius(buckets, target, query, 0);
    let map = gathered_within(buckets, target, radius);
    let wanted = eligible_ids(map, target, query.include_same_set);
    let ids = crate::ordered::increasing(wanted);
    let found = selection(buckets, target, query);
    let entry = buckets[b].entries@[i];
    crate::ordered::lemma_increasing_lists(wanted);
    lemma_gathered_finds(buckets, target, radius);
    assert(is_near(buckets, target, radius as int, b));
    assert(map.contains_key(entry.beatmap_id));
    let (c, j) = choose|c: int, j: int|
        #![trigger buckets[c].entries@[j]]
        is_near(buckets, target, radius as int, c) && 0 <= j < buckets[c].entries@.len()
            && buckets[c].entries@[j].beatmap_id == entry.beatmap_id && map[entry.beatmap_id]
            == buckets[c].entries@[j];
    assert(c == b && j == i);
    assert(wanted.contains(entry.beatmap_id as int));
    assert(ids.contains(entry.beatmap_id as int));
    let k = choose|k: int| 0 <= k < ids.len() && ids[k] == entry.beatmap_id;
    assert(found[k] == entry);
}

/// How far a search goes: it stops at the first radius that gives at least 256 candidates and
/// four for every result asked for, among them at least 32 of the target's own mode family and
/// two of these for every result, or else goes through all ten bands on either side.
pub proof fn law_search_widens_until_it_has_enough(
    buckets: Seq<ManiaBucket>,
    target: ManiaFeatureRecord,
    query: ManiaSimilarityQuery,
)
    ensures
        search_radius(buckets, target, query, 0) < 9 ==> {
            let found = selection(buckets, target, query);
            let family = found.filter(
                |entry: ManiaBucketEntry| entry.mode_family == target.mode_family,
            );
            &&& found.len() >= 256
            &&& found.len() >= 4 * query.result_limit
            &&& family.len() >= 32
            &&& family.len() >= 2 * query.result_limit
        },
        forall|r: nat|
            r < search_radius(buckets, target, query, 0) ==> {
                let found = eligible_entries(
                    #[trigger] gathered_within(buckets, target, r),
                    target,
                    query.include_same_set,
                );
                let family = found.filter(
                    |entry: ManiaBucketEntry| entry.mode_family == target.mode_family,
                );
                ||| found.len() < 256
                ||| found.len() < 4 * query.result_limit
                ||| family.len() < 32
                ||| family.len() < 2 * query.result_limit
            },
{
    lemma_search_radius(buckets, target, query, 0);
    lemma_family_count(selection(buckets, target, query), target.mode_family);
    assert forall|r: nat| r < search_radius(buckets, target, query, 0) implies {
        let found = eligible_entries(
            #[trigger] gathered_within(buckets, target, r),
            target,
            query.include_same_set,
        );
        let family = found.filter(
            |entry: ManiaBucketEntry| entry.mode_family == target.mode_family,
        );
        ||| found.len() < 256
        ||| found.len() < 4 * query.result_limit
        ||| family.len() < 32
        ||| family.len() < 2 * query.result_limit
    } by {
        let found = eligible_entries(
            gathered_within(buckets, target, r),
            target,
            query.include_same_set,
        );
        lemma_family_count(found, target.mode_family);
    }
}

/// No chart is overlooked for its difficulty: each chart of the target's key count that is not
/// left out is a candidate, however far its band is from the target's, unless there are plenty of
/// nearer ones.
pub proof fn law_every_band_is_reached(
    buckets: Seq<ManiaBucket>,
    target: ManiaFeatureRecord,
    query: ManiaSimilarityQuery,
    b: int,
    i: int,
)
    requires
        target.difficulty_band <= 9,
        0 <= b < buckets.len(),
        0 <= i < buckets[b].entries@.len(),
        buckets[b].key_count == target.key_count,
        buckets[b].difficulty_band <= 9,
        buckets[b].entries@[i].beatmap_id != target.beatmap_id,
        query.include_same_set || target.beatmapset_id == 0
            || buckets[b].entries@[i].beatmapset_id != target.beatmapset_id,
        forall|c: int|
            0 <= c < b ==> !((#[trigger] buckets[c]).key_count == buckets[b].key_count
                && buckets[c].difficulty_band == buckets[b].difficulty_band),
        forall|c: int, j: int|
            0 <= c < buckets.len() && 0 <= j < buckets[c].entries@.len() && buckets[c].key_count
                == target.key_count && (#[trigger] buckets[c].entries@[j]).beatmap_id
                == buckets[b].entries@[i].beatmap_id ==> c == b && j == i,
    ensures
        selection(buckets, target, query).contains(buckets[b].entries@[i]) || (selection(
            buckets,
            target,
            query,
        ).len() >= 256 && selection(buckets, target, query).len() >= 4 * query.result_limit
            && selection(buckets, target, query).filter(
            |entry: ManiaBucketEntry| entry.mode_family == target.mode_family,
        ).len() >= 32 && selection(buckets, target, query).filter(
            |entry: ManiaBucketEntry| entry.mode_family == target.mode_family,
        ).len() >= 2 * query.result_limit),
        selection(buckets, target, query).contains(buckets[b].entries@[i])
            || buckets[b].difficulty_band != target.difficulty_band,
{
    law_search_widens_until_it_has_enough(buckets, target, query);
    lemma_search_radius(buckets, target, query, 0);
    if search_radius(buckets, target, query, 0) == 9 || buckets[b].difficulty_band
        == target.difficulty_band {
        law_near_entries_are_candidates(buckets, target, query, b, i);
    }
}

/// Which queries can be asked: those for one to a hundred results, from a target of the index's
/// normalization version and of the current analyzer version.
pub proof fn law_queries_ask_for_one_to_a_hundred_results(
    version: u32,
    target: ManiaFeatureRecord,
    query: ManiaSimilarityQuery,
)
    ensures
        query_refusal(version, target, query) is None <==> query.result_limit >= 1
            && query.result_limit <= 100 && target.normalization_version == version
            && target.analyzer_version == MANIA_ANALYZER_VERSION,
        query.result_limit == 0 || query.result_limit > 100 ==> query_refusal(
            version,
            target,
            query,
        ) == Some(ManiaIndexError::ResultLimit),
{
}

/// What a query is answered with: as many results as there are candidates, up to the limit. Each
/// is for one of the candidates and says of it what its stored record, its metadata and its
/// distance say. A candidate that is not among them is at least as far as each that is.
pub proof fn law_results_describe_the_nearest_candidates(
    store: ManiaFeatureStore,
    version: u32,
    key_count: u8,
    entries: Seq<ManiaBucketEntry>,
    distances: Seq<ManiaDistance>,
    limit: int,
    results: Vec<ManiaSimilarityResult>,
)
    requires
        distances.len() == entries.len(),
        0 <= limit,
        answers(store, version, key_count, entries, distances, limit, Ok(results)),
    ensures
        results@.len() == if entries.len() <= limit {
            entries.len() as int
        } else {
            limit
        },
        forall|k: int|
            0 <= k < results@.len() ==> exists|i: int, r: int|
                0 <= i < entries.len() && 0 <= r < store.rows@.len() && {
                    let result = #[trigger] results@[k];
                    let entry = #[trigger] entries[i];
                    let row = #[trigger] store.rows@[r];
                    let metadata = store.metadata@[entry.beatmap_id];
                    &&& row.record.normalization_version == version
                    &&& row.offset == entry.normalized_offset
                    &&& row.record.beatmap_id == entry.beatmap_id
                    &&& row.record.beatmapset_id == entry.beatmapset_id
                    &&& row.record.key_count == key_count
                    &&& row.record.mode_family == entry.mode_family
                    &&& store.metadata@.contains_key(entry.beatmap_id)
                    &&& result.beatmap_id == entry.beatmap_id
                    &&& result.beatmapset_id == entry.beatmapset_id
                    &&& result.artist@ == metadata.artist@
                    &&& result.title@ == metadata.title@
                    &&& result.version@ == metadata.version@
                    &&& result.key_count == key_count
                    &&& result.mode_family == entry.mode_family
                    &&& result.dominant_pattern == row.record.dominant_pattern
                    &&& result.difficulty_percentile == row.record.difficulty_percentile
                    &&& result.difficulty_band == row.record.difficulty_band
                    &&& result.final_distance == distances[i].final_distance
                    &&& result.components == distances[i].components
                },
        forall|i: int|
            0 <= i < entries.len() ==> (exists|k: int|
                0 <= k < results@.len() && (#[trigger] results@[k]).beatmap_id == (
                #[trigger] entries[i]).beatmap_id && results@[k].final_distance
                    == distances[i].final_distance) || forall|k: int|
                0 <= k < results@.len() ==> (#[trigger] results@[k]).final_distance.total_key()
                    <= distances[i].final_distance.total_key(),
{
    let keys = distance_keys(entries, distances);
    let order = crate::sorting::stable_order(keys);
    let records = records_of(store.rows@, version, entries);
    let shown = nearest(entries, distances, limit);
    crate::sorting::lemma_stable_order(keys);
    assert forall|k: int| 0 <= k < results@.len() implies exists|i: int, r: int|
        0 <= i < entries.len() && 0 <= r < store.rows@.len() && {
            let result = #[trigger] results@[k];
            let entry = #[trigger] entries[i];
            let row = #[trigger] store.rows@[r];
            let metadata = store.metadata@[entry.beatmap_id];
            &&& row.record.normalization_version == version
            &&& row.offset == entry.normalized_offset
            &&& row.record.beatmap_id == entry.beatmap_id
            &&& row.record.beatmapset_id == entry.beatmapset_id
            &&& row.record.key_count == key_count
            &&& row.record.mode_family == entry.mode_family
            &&& store.metadata@.contains_key(entry.beatmap_id)
            &&& result.beatmap_id == entry.beatmap_id
            &&& result.beatmapset_id == entry.beatmapset_id
            &&& result.artist@ == metadata.artist@
            &&& result.title@ == metadata.title@
            &&& result.version@ == metadata.version@
            &&& result.key_count == key_count
            &&& result.mode_family == entry.mode_family
            &&& result.dominant_pattern == row.record.dominant_pattern
            &&& result.difficulty_percentile == row.record.difficulty_percentile
            &&& result.difficulty_band == row.record.difficulty_band
            &&& result.final_distance == distances[i].final_distance
            &&& result.components == distances[i].components
        } by {
        let i = shown[k];
        assert(i == order[k]);
        assert(0 <= order[k] < keys.len());
        let entry = entries[i];
        lemma_none_missing(store.rows@, version, entries, 0, i);
        crate::mania::lemma_row_at_offset(store.rows@, version, entry.normalized_offset, 0);
        let r = crate::mania::row_at_offset(store.rows@, version, entry.normalized_offset, 0)->0;
        lemma_no_mismatch(records, entries, key_count, 0, i);
        lemma_all_labelled(store.metadata@, entries, shown, 0, k);
        assert(describes(
            results@[k],
            records[shown[k]],
            distances[shown[k]],
            store.metadata@[entries[shown[k]].beatmap_id],
        ));
        assert(store.rows@[r].record == records[i]);
    }
    assert forall|i: int| 0 <= i < entries.len() implies (exists|k: int|
        0 <= k < results@.len() && (#[trigger] results@[k]).beatmap_id == (
        #[trigger] entries[i]).beatmap_id && results@[k].final_distance
            == distances[i].final_distance) || forall|k: int|
        0 <= k < results@.len() ==> (#[trigger] results@[k]).final_distance.total_key()
            <= distances[i].final_distance.total_key() by {
        assert(order.contains(i));
        let at = choose|at: int| 0 <= at < order.len() && order[at] == i;
        if at < results@.len() {
            assert(shown[at] == i);
            lemma_no_mismatch(records, entries, key_count, 0, i);
            assert(describes(
                results@[at],
                records[shown[at]],
                distances[shown[at]],
                store.metadata@[entries[shown[at]].beatmap_id],
            ));
        } else {
            assert forall|k: int| 0 <= k < results@.len() implies (
            #[trigger] results@[k]).final_distance.total_key()
                <= distances[i].final_distance.total_key() by {
                assert(shown[k] == order[k]);
                assert(crate::sorting::comes_before(keys, order[k], order[at]));
                assert(0 <= order[k] < keys.len());
                reveal_with_fuel(crate::sorting::lex_le, 2);
                assert(describes(
                    results@[k],
                    records[shown[k]],
                    distances[shown[k]],
                    store.metadata@[entries[shown[k]].beatmap_id],
                ));
            }
        }
    }
}

proof fn lemma_none_missing(
    rows: Seq<ManiaNormalizedRow>,
    version: u32,
    entries: Seq<ManiaBucketEntry>,
    from: int,
    at: int,
)
    requires
        0 <= from <= at < entries.len(),
        first_missing(rows, version, entries, from) is None,
    ensures
        crate::mania::row_at_offset(rows, version, entries[at].normalized_offset, 0) is Some,
    decreases at - from,
{
    if from < at {
        lemma_none_missing(rows, version, entries, from + 1, at);
    }
}

proof fn lemma_all_labelled(
    metadata: Map<u64, ManiaBeatmapMetadata>,
    entries: Seq<ManiaBucketEntry>,
    shown: Seq<int>,
    from: int,
    at: int,
)
    requires
        0 <= from <= at < shown.len(),
        first_unlabelled(metadata, entries, shown, from) is None,
    ensures
        metadata.contains_key(entries[shown[at]].beatmap_id),
    decreases at - from,
{
    if from < at {
        lemma_all_labelled(metadata, entries, shown, from + 1, at);
    }
}

// What an index holds

/// The rows of one key count and band are all rows that declare them, in order.
pub proof fn law_bucket_rows(rows: Seq<ManiaNormalizedRow>, key_count: u8, band: u8)
    ensures
        bucket_rows(rows, key_count, band) == rows.filter(
            |row: ManiaNormalizedRow|
                row.record.key_count == key_count && row.record.difficulty_band == band,
        ),
    decreases rows.len(),
{
    reveal(Seq::filter);
    if rows.len() > 0 {
        law_bucket_rows(rows.drop_last(), key_count, band);
    }
}

/// What a built index holds: of every row one entry, in the bucket of the row's own key count and
/// band, with the row's identifiers, its family and its offset, and nothing else. Buckets are not
/// empty and come by key count, then by band.
pub proof fn law_built_index_holds_every_row(
    rows: Seq<ManiaNormalizedRow>,
    version: u32,
    index: ManiaBucketIndex,
)
    requires
        indexes(rows, version, index),
    ensures
        index.normalization_version == version,
        index.analyzer_version == MANIA_ANALYZER_VERSION,
        forall|b: int|
            0 <= b < index.buckets@.len() ==> {
                let bucket = #[trigger] index.buckets@[b];
                &&& bucket.entries@.len() > 0
                &&& bucket.entries@.to_multiset() == rows.filter(
                    |row: ManiaNormalizedRow|
                        row.record.key_count == bucket.key_count && row.record.difficulty_band
                            == bucket.difficulty_band,
                ).map_values(
                    |row: ManiaNormalizedRow|
                        ManiaBucketEntry {
                            beatmap_id: row.record.beatmap_id,
                            beatmapset_id: row.record.beatmapset_id,
                            mode_family: row.record.mode_family,
                            normalized_offset: row.offset,
                        },
                ).to_multiset()
            },
        forall|a: int, b: int|
            0 <= a < b < index.buckets@.len() ==> {
                let left = #[trigger] index.buckets@[a];
                let right = #[trigger] index.buckets@[b];
                left.key_count < right.key_count || (left.key_count == right.key_count
                    && left.difficulty_band < right.difficulty_band)
            },
{
    assert forall|b: int| 0 <= b < index.buckets@.len() implies {
        let bucket = #[trigger] index.buckets@[b];
        &&& bucket.entries@.len() > 0
        &&& bucket.entries@.to_multiset() == rows.filter(
            |row: ManiaNormalizedRow|
                row.record.key_count == bucket.key_count && row.record.difficulty_band
                    == bucket.difficulty_band,
        ).map_values(
            |row: ManiaNormalizedRow|
                ManiaBucketEntry {
                    beatmap_id: row.record.beatmap_id,
                    beatmapset_id: row.record.beatmapset_id,
                    mode_family: row.record.mode_family,
                    normalized_offset: row.offset,
                },
        ).to_multiset()
    } by {
        let bucket = index.buckets@[b];
        let members = bucket_rows(rows, bucket.key_count, bucket.difficulty_band);
        law_bucket_rows(rows, bucket.key_count, bucket.difficulty_band);
        lemma_sorted_entries(members);
        let made = |row: ManiaNormalizedRow|
            ManiaBucketEntry {
                beatmap_id: row.record.beatmap_id,
                beatmapset_id: row.record.beatmapset_id,
                mode_family: row.record.mode_family,
                normalized_offset: row.offset,
            };
        assert(members.map_values(made) =~= Seq::new(
            members.len(),
            |i: int| entry_of(members[i]),
        ));
    }
    assert forall|a: int, b: int| 0 <= a < b < index.buckets@.len() implies {
        let left = #[trigger] index.buckets@[a];
        let right = #[trigger] index.buckets@[b];
        left.key_count < right.key_count || (left.key_count == right.key_count
            && left.difficulty_band < right.difficulty_band)
    } by {
        let left = index.buckets@[a];
        let right = index.buckets@[b];
        assert(bucket_code(left.key_count, left.difficulty_band) < bucket_code(
            right.key_count,
            right.difficulty_band,
        ));
    }
}

/// Every row has a bucket of its own key count and band in a built index, and an entry in it.
pub proof fn law_built_index_has_a_bucket_for_every_row(
    rows: Seq<ManiaNormalizedRow>,
    version: u32,
    index: ManiaBucketIndex,
    r: int,
) -> (b: int)
    requires
        indexes(rows, version, index),
        0 <= r < rows.len(),
    ensures
        0 <= b < index.buckets@.len(),
        index.buckets@[b].key_count == rows[r].record.key_count,
        index.buckets@[b].difficulty_band == rows[r].record.difficulty_band,
        index.buckets@[b].entries@.contains(
            (ManiaBucketEntry {
                beatmap_id: rows[r].record.beatmap_id,
                beatmapset_id: rows[r].record.beatmapset_id,
                mode_family: rows[r].record.mode_family,
                normalized_offset: rows[r].offset,
            }),
        ),
{
    let key_count = rows[r].record.key_count;
    let band = rows[r].record.difficulty_band;
    assert(has_bucket(index.buckets@, key_count, band));
    let b = choose|b: int|
        0 <= b < index.buckets@.len() && (#[trigger] index.buckets@[b]).key_count == key_count
            && index.buckets@[b].difficulty_band == band;
    let members = bucket_rows(rows, key_count, band);
    law_bucket_rows(rows, key_count, band);
    let test = |row: ManiaNormalizedRow|
        row.record.key_count == key_count && row.record.difficulty_band == band;
    rows.lemma_filter_contains(test, r);
    let m = choose|m: int| 0 <= m < members.len() && members[m] == rows[r];
    let entries = Seq::new(members.len(), |i: int| entry_of(members[i]));
    assert(entries[m] == entry_of(rows[r]));
    assert(entries.contains(entry_of(rows[r])));
    lemma_sorted_entries(members);
    assert(index.buckets@[b].entries@ == bucket_entries(rows, key_count, band));
    vstd::seq_lib::to_multiset_contains(entries, entry_of(rows[r]));
    vstd::seq_lib::to_multiset_contains(index.buckets@[b].entries@, entry_of(rows[r]));
    b
}

proof fn lemma_sorted_entries(members: Seq<ManiaNormalizedRow>)
    ensures
        ({
            let sorted = crate::sorting::sorted_by(members, row_keys(members));
            Seq::new(sorted.len(), |i: int| entry_of(sorted[i])).to_multiset() == Seq::new(
                members.len(),
                |i: int| entry_of(members[i]),
            ).to_multiset()
        }),
{
    let keys = row_keys(members);
    let order = crate::sorting::stable_order(keys);
    let entries = Seq::new(members.len(), |i: int| entry_of(members[i]));
    let sorted = crate::sorting::sorted_by(members, keys);
    crate::sorting::lemma_stable_order(keys);
    assert forall|i: int, j: int| 0 <= i < j < order.len() implies #[trigger] order[i]
        != #[trigger] order[j] by {
        assert(crate::sorting::comes_before(keys, order[i], order[j]));
    }
    crate::sorting::lemma_arranged_multiset(entries, order);
    assert(crate::sorting::arranged(entries, order) =~= Seq::new(
        sorted.len(),
        |i: int| entry_of(sorted[i]),
    )) by {
        assert forall|i: int| 0 <= i < order.len() implies crate::sorting::arranged(
            entries,
            order,
        )[i] == entry_of(sorted[i]) by {
            assert(0 <= order[i] < members.len());
        }
    }
}

/// Within a bucket of a built index the entries come by difficulty percentile, and of equal ones
/// the smaller identifier first.
pub proof fn law_buckets_are_sorted_by_percentile(
    rows: Seq<ManiaNormalizedRow>,
    version: u32,
    index: ManiaBucketIndex,
    b: int,
    i: int,
    j: int,
)
    requires
        indexes(rows, version, index),
        0 <= b < index.buckets@.len(),
        0 <= i < j < index.buckets@[b].entries@.len(),
    ensures
        exists|p: int, q: int|
            0 <= p < rows.len() && 0 <= q < rows.len() && {
                let near = #[trigger] rows[p];
                let far = #[trigger] rows[q];
                let left = index.buckets@[b].entries@[i];
                let right = index.buckets@[b].entries@[j];
                &&& near.record.beatmap_id == left.beatmap_id && near.offset
                    == left.normalized_offset
                &&& far.record.beatmap_id == right.beatmap_id && far.offset
                    == right.normalized_offset
                &&& near.record.difficulty_percentile.total_key()
                    < far.record.difficulty_percentile.total_key() || (
                near.record.difficulty_percentile == far.record.difficulty_percentile
                    && near.record.beatmap_id <= far.record.beatmap_id)
            },
{
    let bucket = index.buckets@[b];
    let members = bucket_rows(rows, bucket.key_count, bucket.difficulty_band);
    let keys = row_keys(members);
    let order = crate::sorting::stable_order(keys);
    crate::sorting::lemma_stable_order(keys);
    assert(bucket.entries@ == bucket_entries(rows, bucket.key_count, bucket.difficulty_band));
    let first = members[order[i]];
    let second = members[order[j]];
    assert(0 <= order[i] < members.len() && 0 <= order[j] < members.len());
    assert(crate::sorting::comes_before(keys, order[i], order[j]));
    assert(keys[order[i]].drop_first() =~= seq![first.record.beatmap_id as int]);
    assert(keys[order[j]].drop_first() =~= seq![second.record.beatmap_id as int]);
    reveal_with_fuel(crate::sorting::lex_le, 3);
    crate::float_bits::lemma_total_order_is_injective(
        first.record.difficulty_percentile,
        second.record.difficulty_percentile,
    );
    law_bucket_rows(rows, bucket.key_count, bucket.difficulty_band);
    let test = |row: ManiaNormalizedRow|
        row.record.key_count == bucket.key_count && row.record.difficulty_band
            == bucket.difficulty_band;
    assert(rows.filter(test).contains(first)) by {
        assert(members[order[i]] == first);
    }
    assert(rows.filter(test).contains(second)) by {
        assert(members[order[j]] == second);
    }
    rows.lemma_filter_contains_rev(test, first);
    rows.lemma_filter_contains_rev(test, second);
    let p = choose|p: int| 0 <= p < rows.len() && rows[p] == first;
    let q = choose|q: int| 0 <= q < rows.len() && rows[q] == second;
    assert(rows[p] == first && rows[q] == second);
}

/// Where the entries of the bucket at `b` start among all placements.
spec fn placed_before(buckets: Seq<ManiaBucket>, b: int) -> int {
    index_placements(buckets.take(b)).len() as int
}

proof fn lemma_placed(buckets: Seq<ManiaBucket>, b: int, i: int)
    requires
        0 <= b < buckets.len(),
        0 <= i < buckets[b].entries@.len(),
    ensures
        0 <= placed_before(buckets, b),
        placed_before(buckets, b) + buckets[b].entries@.len() == placed_before(buckets, b + 1),
        placed_before(buckets, b) + i < index_placements(buckets).len(),
        index_placements(buckets)[placed_before(buckets, b) + i] == bucket_placements(
            buckets[b],
        )[i],
    decreases buckets.len(),
{
    assert(buckets.take(b + 1).drop_last() =~= buckets.take(b));
    if b == buckets.len() - 1 {
        assert(buckets.take(b) =~= buckets.drop_last());
        assert(buckets.take(b + 1) =~= buckets);
    } else {
        let front = buckets.drop_last();
        assert(front.take(b) =~= buckets.take(b));
        assert(front.take(b + 1) =~= buckets.take(b + 1));
        assert(front[b] == buckets[b]);
        lemma_placed(front, b, i);
        assert(index_placements(buckets) == index_placements(front) + bucket_placements(
            buckets.last(),
        ));
    }
}

proof fn lemma_placed_grows(buckets: Seq<ManiaBucket>, b: int, c: int)
    requires
        0 <= b <= c <= buckets.len(),
    ensures
        placed_before(buckets, b) <= placed_before(buckets, c),
    decreases c - b,
{
    if b < c {
        lemma_placed_grows(buckets, b, c - 1);
        assert(buckets.take(c).drop_last() =~= buckets.take(c - 1));
    }
}

proof fn lemma_first_repeat_is_first(placements: Seq<(u64, ManiaPlacement)>, from: int)
    requires
        0 <= from,
        first_repeat(placements, from) is None,
    ensures
        forall|i: int| from <= i < placements.len() ==> !#[trigger] repeats(placements, i),
    decreases placements.len() - from,
{
    if from < placements.len() {
        lemma_first_repeat_is_first(placements, from + 1);
    }
}

proof fn lemma_placement_map(placements: Seq<(u64, ManiaPlacement)>)
    requires
        forall|i: int| 0 <= i < placements.len() ==> !#[trigger] repeats(placements, i),
    ensures
        forall|i: int|
            0 <= i < placements.len() ==> placement_map(placements).contains_key(
                (#[trigger] placements[i]).0,
            ) && placement_map(placements)[placements[i].0] == placements[i].1,
        forall|id: u64| #[trigger]
            placement_map(placements).contains_key(id) ==> exists|i: int|
                0 <= i < placements.len() && (#[trigger] placements[i]).0 == id,
    decreases placements.len(),
{
    if placements.len() > 0 {
        let front = placements.drop_last();
        let last = placements.len() - 1;
        assert forall|i: int| 0 <= i < front.len() implies !#[trigger] repeats(front, i) by {
            if repeats(front, i) {
                let e = choose|e: int| 0 <= e < i && (#[trigger] front[e]).0 == front[i].0;
                assert(placements[e].0 == placements[i].0);
                assert(repeats(placements, i));
            }
        }
        lemma_placement_map(front);
        assert(!repeats(placements, last));
        assert forall|i: int| 0 <= i < placements.len() implies placement_map(
            placements,
        ).contains_key((#[trigger] placements[i]).0) && placement_map(
            placements,
        )[placements[i].0] == placements[i].1 by {
            if i < last {
                assert(front[i] == placements[i]);
                assert(placements[i].0 != placements[last].0);
            }
        }
        assert forall|id: u64| #[trigger] placement_map(placements).contains_key(
            id,
        ) implies exists|i: int|
            0 <= i < placements.len() && (#[trigger] placements[i]).0 == id by {
            if id == placements.last().0 {
                assert(placements[last].0 == id);
            } else {
                assert(placement_map(front).contains_key(id));
                let i = choose|i: int| 0 <= i < front.len() && (#[trigger] front[i]).0 == id;
                assert(placements[i].0 == id);
            }
        }
    }
}

proof fn lemma_rows_are_placed(rows: Seq<ManiaNormalizedRow>)
    ensures
        forall|r: int|
            0 <= r < rows.len() ==> row_placements(rows).contains_key(
                (#[trigger] rows[r]).record.beatmap_id,
            ),
        forall|id: u64| #[trigger]
            row_placements(rows).contains_key(id) ==> exists|r: int|
                0 <= r < rows.len() && (#[trigger] rows[r]).record.beatmap_id == id
                    && row_placements(rows)[id] == row_placement(rows[r]),
    decreases rows.len(),
{
    if rows.len() > 0 {
        let front = rows.drop_last();
        let last = rows.len() - 1;
        lemma_rows_are_placed(front);
        assert forall|r: int| 0 <= r < rows.len() implies row_placements(rows).contains_key(
            (#[trigger] rows[r]).record.beatmap_id,
        ) by {
            if r < last {
                assert(front[r] == rows[r]);
            }
        }
        assert forall|id: u64| #[trigger] row_placements(rows).contains_key(id) implies exists|
            r: int,
        |
            0 <= r < rows.len() && (#[trigger] rows[r]).record.beatmap_id == id && row_placements(
                rows,
            )[id] == row_placement(rows[r]) by {
            if id == rows.last().record.beatmap_id {
                assert(rows[last].record.beatmap_id == id);
            } else {
                assert(row_placements(front).contains_key(id));
                let r = choose|r: int|
                    0 <= r < front.len() && (#[trigger] front[r]).record.beatmap_id == id
                        && row_placements(front)[id] == row_placement(front[r]);
                assert(rows[r] == front[r]);
            }
        }
    }
}

/// An index that covers its dataset is of its versions and matches it entry by entry: no beatmap
/// is in two places, every entry stands for a row of the same beatmap, set, family and offset in
/// the bucket of that row's key count and band, and the beatmap of every row has an entry.
pub proof fn law_covering_mania_indexes_match_the_dataset(
    rows: Seq<ManiaNormalizedRow>,
    version: u32,
    index: ManiaBucketIndex,
)
    requires
        coverage(rows, version, index) is Ok,
    ensures
        index.normalization_version == version,
        index.analyzer_version == MANIA_ANALYZER_VERSION,
        forall|b: int, i: int, c: int, j: int|
            0 <= b < index.buckets@.len() && 0 <= i < index.buckets@[b].entries@.len() && 0 <= c
                < index.buckets@.len() && 0 <= j < index.buckets@[c].entries@.len() && (
            #[trigger] index.buckets@[b].entries@[i]).beatmap_id == (
            #[trigger] index.buckets@[c].entries@[j]).beatmap_id ==> b == c && i == j,
        forall|b: int, i: int|
            0 <= b < index.buckets@.len() && 0 <= i < index.buckets@[b].entries@.len()
                ==> exists|r: int|
                0 <= r < rows.len() && {
                    let entry = #[trigger] index.buckets@[b].entries@[i];
                    let row = #[trigger] rows[r];
                    &&& row.record.beatmap_id == entry.beatmap_id
                    &&& row.record.beatmapset_id == entry.beatmapset_id
                    &&& row.record.mode_family == entry.mode_family
                    &&& row.offset == entry.normalized_offset
                    &&& row.record.key_count == index.buckets@[b].key_count
                    &&& row.record.difficulty_band == index.buckets@[b].difficulty_band
                },
        forall|r: int|
            0 <= r < rows.len() ==> exists|b: int, i: int|
                #![trigger index.buckets@[b].entries@[i]]
                0 <= b < index.buckets@.len() && 0 <= i < index.buckets@[b].entries@.len()
                    && index.buckets@[b].entries@[i].beatmap_id == (
                #[trigger] rows[r]).record.beatmap_id,
{
    let buckets = index.buckets@;
    let placements = index_placements(buckets);
    lemma_first_repeat_is_first(placements, 0);
    lemma_placement_map(placements);
    lemma_rows_are_placed(rows);
    assert forall|b: int, i: int, c: int, j: int|
        0 <= b < buckets.len() && 0 <= i < buckets[b].entries@.len() && 0 <= c < buckets.len() && 0
            <= j < buckets[c].entries@.len() && (#[trigger] buckets[b].entries@[i]).beatmap_id == (
        #[trigger] buckets[c].entries@[j]).beatmap_id implies b == c && i == j by {
        lemma_placed(buckets, b, i);
        lemma_placed(buckets, c, j);
        let p = placed_before(buckets, b) + i;
        let q = placed_before(buckets, c) + j;
        assert(placements[p].0 == placements[q].0);
        if p < q {
            assert(repeats(placements, q));
        } else if q < p {
            assert(repeats(placements, p));
        }
        if b < c {
            lemma_placed_grows(buckets, b + 1, c);
        } else if c < b {
            lemma_placed_grows(buckets, c + 1, b);
        }
    }
    assert forall|b: int, i: int|
        0 <= b < buckets.len() && 0 <= i < buckets[b].entries@.len() implies exists|r: int|
        0 <= r < rows.len() && {
            let entry = #[trigger] buckets[b].entries@[i];
            let row = #[trigger] rows[r];
            &&& row.record.beatmap_id == entry.beatmap_id
            &&& row.record.beatmapset_id == entry.beatmapset_id
            &&& row.record.mode_family == entry.mode_family
            &&& row.offset == entry.normalized_offset
            &&& row.record.key_count == buckets[b].key_count
            &&& row.record.difficulty_band == buckets[b].difficulty_band
        } by {
        lemma_placed(buckets, b, i);
        let p = placed_before(buckets, b) + i;
        let id = placements[p].0;
        assert(placement_map(placements).contains_key(id));
        assert(row_placements(rows).contains_key(id));
        let r = choose|r: int|
            0 <= r < rows.len() && (#[trigger] rows[r]).record.beatmap_id == id && row_placements(
                rows,
            )[id] == row_placement(rows[r]);
        assert(row_placement(rows[r]) == placements[p].1);
        assert(rows[r].record.beatmap_id == buckets[b].entries@[i].beatmap_id);
    }
    assert forall|r: int| 0 <= r < rows.len() implies exists|b: int, i: int|
        #![trigger buckets[b].entries@[i]]
        0 <= b < buckets.len() && 0 <= i < buckets[b].entries@.len()
            && buckets[b].entries@[i].beatmap_id == (#[trigger] rows[r]).record.beatmap_id by {
        let id = rows[r].record.beatmap_id;
        assert(placement_map(placements).contains_key(id));
        let p = choose|p: int| 0 <= p < placements.len() && (#[trigger] placements[p]).0 == id;
        lemma_placement_source(buckets, p);
        let (b, i) = choose|b: int, i: int|
            #![trigger buckets[b].entries@[i]]
            0 <= b < buckets.len() && 0 <= i < buckets[b].entries@.len()
                && buckets[b].entries@[i].beatmap_id == placements[p].0;
        assert(buckets[b].entries@[i].beatmap_id == id);
    }
}

proof fn lemma_placement_source(buckets: Seq<ManiaBucket>, p: int)
    requires
        0 <= p < index_placements(buckets).len(),
    ensures
        exists|b: int, i: int|
            #![trigger buckets[b].entries@[i]]
            0 <= b < buckets.len() && 0 <= i < buckets[b].entries@.len()
                && buckets[b].entries@[i].beatmap_id == index_placements(buckets)[p].0,
    decreases buckets.len(),
{
    let front = buckets.drop_last();
    let before = index_placements(front).len();
    if p < before {
        lemma_placement_source(front, p);
        let (b, i) = choose|b: int, i: int|
            #![trigger front[b].entries@[i]]
            0 <= b < front.len() && 0 <= i < front[b].entries@.len()
                && front[b].entries@[i].beatmap_id == index_placements(front)[p].0;
        assert(buckets[b].entries@[i] == front[b].entries@[i]);
    } else {
        let last = buckets.len() - 1;
        assert(buckets[last].entries@[p - before].beatmap_id == index_placements(buckets)[p].0);
    }
}

} // verus!
