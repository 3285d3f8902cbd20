//! The records of the osu!mania dataset.

use std::collections::BTreeMap;

use vstd::prelude::*;

use crate::float_bits::F32;

verus! {

broadcast use vstd::std_specs::btree::group_btree_axioms;

/// Bumped whenever a raw mania formula changes.
pub const MANIA_ANALYZER_VERSION: u32 = 1;

pub const MANIA_DIFFICULTY_DIMENSIONS: usize = 8;

pub const MANIA_STYLE_DIMENSIONS: usize = 16;

/// The family of note types that a chart belongs to, by its stored code.
#[derive(Clone, Copy, Debug, PartialEq, Eq, Structural, Default)]
pub struct ManiaModeFamily {
    pub code: u8,
}

/// The pattern that dominates a chart, by its stored code.
#[derive(Clone, Copy, Debug, PartialEq, Eq, Structural, Default)]
pub struct ManiaPattern {
    pub code: u8,
}

#[derive(Clone, Copy, Debug, PartialEq, Eq, Structural, Default)]
pub struct ManiaDifficultyVector {
    pub speed: F32,
    pub hand_stream: F32,
    pub jack: F32,
    pub chordjack: F32,
    pub technical: F32,
    pub stamina: F32,
    pub long_note: F32,
    pub course: F32,
}

impl ManiaDifficultyVector {
    /// The axes in the order in which they are stored.
    pub open spec fn axes(self) -> Seq<F32> {
        seq![
            self.speed,
            self.hand_stream,
            self.jack,
            self.chordjack,
            self.technical,
            self.stamina,
            self.long_note,
            self.course,
        ]
    }

    pub fn as_array(self) -> (values: [F32; 8])
        ensures
            values@ == self.axes(),
    {
        let values: [F32; 8] = [
            self.speed,
            self.hand_stream,
            self.jack,
            self.chordjack,
            self.technical,
            self.stamina,
            self.long_note,
            self.course,
        ];
        assert(values@ =~= self.axes());
        values
    }

    pub fn from_array(values: [F32; 8]) -> (vector: ManiaDifficultyVector)
        ensures
            vector.axes() == values@,
    {
        let vector = ManiaDifficultyVector {
            speed: values[0],
            hand_stream: values[1],
            jack: values[2],
            chordjack: values[3],
            technical: values[4],
            stamina: values[5],
            long_note: values[6],
            course: values[7],
        };
        assert(vector.axes() =~= values@);
        vector
    }
}

#[derive(Clone, Copy, Debug, PartialEq, Eq, Structural, Default)]
pub struct ManiaStyleVector {
    pub stream: F32,
    pub chordstream: F32,
    pub jacks: F32,
    pub coordination: F32,
    pub density: F32,
    pub wildcard: F32,
    pub chord_rate: F32,
    pub large_chord_rate: F32,
    pub rotation_rate: F32,
    pub anchor_rate: F32,
    pub rhythm_entropy: F32,
    pub transition_entropy: F32,
    pub ln_note_ratio: F32,
    pub hold_occupancy: F32,
    pub hybrid_row_ratio: F32,
    pub peak_to_sustain_gap: F32,
}

impl ManiaStyleVector {
    /// The shares and rates in the order in which they are stored.
    pub open spec fn axes(self) -> Seq<F32> {
        seq![
            self.stream,
            self.chordstream,
            self.jacks,
            self.coordination,
            self.density,
            self.wildcard,
            self.chord_rate,
            self.large_chord_rate,
            self.rotation_rate,
            self.anchor_rate,
            self.rhythm_entropy,
            self.transition_entropy,
            self.ln_note_ratio,
            self.hold_occupancy,
            self.hybrid_row_ratio,
            self.peak_to_sustain_gap,
        ]
    }

    pub fn as_array(self) -> (values: [F32; 16])
        ensures
            values@ == self.axes(),
    {
        let values: [F32; 16] = [
            self.stream,
            self.chordstream,
            self.jacks,
            self.coordination,
            self.density,
            self.wildcard,
            self.chord_rate,
            self.large_chord_rate,
            self.rotation_rate,
            self.anchor_rate,
            self.rhythm_entropy,
            self.transition_entropy,
            self.ln_note_ratio,
            self.hold_occupancy,
            self.hybrid_row_ratio,
            self.peak_to_sustain_gap,
        ];
        assert(values@ =~= self.axes());
        values
    }
}

#[derive(Clone, Copy, Debug, PartialEq, Eq, Structural, Default)]
pub struct ManiaBaseFeatures {
    pub bpm: F32,
    pub length_seconds: F32,
    pub active_length_seconds: F32,
    pub note_count: F32,
    pub row_count: F32,
    pub avg_nps: F32,
    pub peak_nps: F32,
    pub break_density: F32,
    pub sv_change_rate: F32,
}

impl ManiaBaseFeatures {
    /// The features in the order in which they are exported.
    pub open spec fn columns(self) -> Seq<F32> {
        seq![
            self.bpm,
            self.length_seconds,
            self.active_length_seconds,
            self.note_count,
            self.row_count,
            self.avg_nps,
            self.peak_nps,
            self.break_density,
            self.sv_change_rate,
        ]
    }

    pub fn as_array(self) -> (values: [F32; 9])
        ensures
            values@ == self.columns(),
    {
        let values: [F32; 9] = [
            self.bpm,
            self.length_seconds,
            self.active_length_seconds,
            self.note_count,
            self.row_count,
            self.avg_nps,
            self.peak_nps,
            self.break_density,
            self.sv_change_rate,
        ];
        assert(values@ =~= self.columns());
        values
    }
}

#[derive(Clone, Copy, Debug, PartialEq, Eq, Structural, Default)]
pub struct ManiaRawFeatureRecord {
    pub beatmap_id: u64,
    pub beatmapset_id: u64,
    pub difficulty: ManiaDifficultyVector,
    pub style: ManiaStyleVector,
    pub base: ManiaBaseFeatures,
    pub key_count: u8,
    pub mode_family: ManiaModeFamily,
    pub dominant_pattern: ManiaPattern,
    pub analyzer_version: u32,
}

#[derive(Clone, Copy, Debug, PartialEq, Eq, Structural, Default)]
pub struct ManiaFeatureRecord {
    pub beatmap_id: u64,
    pub beatmapset_id: u64,
    pub difficulty: ManiaDifficultyVector,
    pub style: ManiaStyleVector,
    pub base: ManiaBaseFeatures,
    pub difficulty_percentile: F32,
    pub difficulty_band: u8,
    pub key_count: u8,
    pub mode_family: ManiaModeFamily,
    pub dominant_pattern: ManiaPattern,
    pub analyzer_version: u32,
    pub normalization_version: u32,
}

#[derive(Clone, Debug)]
pub struct ManiaBeatmapMetadata {
    pub beatmap_id: u64,
    pub beatmapset_id: u64,
    pub checksum: String,
    pub artist: String,
    pub title: String,
    pub version: String,
    pub creator: String,
    pub online_url: String,
    pub key_count: u8,
    pub mode_family: ManiaModeFamily,
    pub dominant_pattern: ManiaPattern,
}

/// A normalized record and where it stands in its feature file.
#[derive(Clone, Copy, Debug, PartialEq, Eq, Structural)]
pub struct ManiaNormalizedRow {
    pub offset: u64,
    pub record: ManiaFeatureRecord,
}

/// What the index and its queries read of a mania dataset.
pub struct ManiaFeatureStore {
    pub root: String,
    /// The normalized records of all versions, in the order in which they are listed.
    pub rows: Vec<ManiaNormalizedRow>,
    /// The metadata of each beatmap, by its identifier.
    pub metadata: BTreeMap<u64, ManiaBeatmapMetadata>,
}

/// The rows of one normalization version, in order.
pub open spec fn rows_of(rows: Seq<ManiaNormalizedRow>, version: u32) -> Seq<ManiaNormalizedRow>
    decreases rows.len(),
{
    if rows.len() == 0 {
        rows
    } else {
        let front = rows_of(rows.drop_last(), version);
        if rows.last().record.normalization_version == version {
            front.push(rows.last())
        } else {
            front
        }
    }
}

/// The first position, from `from` on, of a row with the given version and beatmap.
pub open spec fn row_with_id(
    rows: Seq<ManiaNormalizedRow>,
    version: u32,
    beatmap_id: u64,
    from: int,
) -> Option<int>
    decreases rows.len() - from,
{
    if from < 0 || from >= rows.len() {
        None
    } else if rows[from].record.normalization_version == version && rows[from].record.beatmap_id
        == beatmap_id {
        Some(from)
    } else {
        row_with_id(rows, version, beatmap_id, from + 1)
    }
}

/// The first position, from `from` on, of a row with the given version and offset.
pub open spec fn row_at_offset(
    rows: Seq<ManiaNormalizedRow>,
    version: u32,
    offset: u64,
    from: int,
) -> Option<int>
    decreases rows.len() - from,
{
    if from < 0 || from >= rows.len() {
        None
    } else if rows[from].record.normalization_version == version && rows[from].offset == offset {
        Some(from)
    } else {
        row_at_offset(rows, version, offset, from + 1)
    }
}

impl ManiaFeatureStore {
    /// The normalized records of one version with their offsets, in order.
    pub fn normalized_records_with_offsets(&self, version: u32) -> (rows: Vec<ManiaNormalizedRow>)
        ensures
            rows@ == rows_of(self.rows@, version),
    {
        let mut rows: Vec<ManiaNormalizedRow> = Vec::new();
        let mut i: usize = 0;
        assert(self.rows@.take(0) =~= seq![]);
        while i < self.rows.len()
            invariant
                i <= self.rows@.len(),
                rows@ == rows_of(self.rows@.take(i as int), version),
            decreases self.rows@.len() - i,
        {
            assert(self.rows@.take(i + 1).drop_last() =~= self.rows@.take(i as int));
            let row: ManiaNormalizedRow = self.rows[i];
            if row.record.normalization_version == version {
                rows.push(row);
            }
            i = i + 1;
        }
        assert(self.rows@.take(self.rows@.len() as int) =~= self.rows@);
        rows
    }

    /// The normalized record of one beatmap, if there is one.
    pub fn normalized_for_id(&self, version: u32, beatmap_id: u64) -> (record: Option<
        ManiaFeatureRecord,
    >)
        ensures
            match row_with_id(self.rows@, version, beatmap_id, 0) {
                Some(at) => record == Some(self.rows@[at].record),
                None => record is None,
            },
    {
        let mut i: usize = 0;
        while i < self.rows.len()
            invariant
                i <= self.rows@.len(),
                row_with_id(self.rows@, version, beatmap_id, 0) == row_with_id(
                    self.rows@,
                    version,
                    beatmap_id,
                    i as int,
                ),
            decreases self.rows@.len() - i,
        {
            if self.rows[i].record.normalization_version == version
                && self.rows[i].record.beatmap_id == beatmap_id {
                return Some(self.rows[i].record);
            }
            i = i + 1;
        }
        None
    }

    /// The normalized record that stands at one offset, if there is one.
    pub fn normalized_record_at(&self, version: u32, offset: u64) -> (record: Option<
        ManiaFeatureRecord,
    >)
        ensures
            match row_at_offset(self.rows@, version, offset, 0) {
                Some(at) => record == Some(self.rows@[at].record),
                None => record is None,
            },
    {
        let mut i: usize = 0;
        while i < self.rows.len()
            invariant
                i <= self.rows@.len(),
                row_at_offset(self.rows@, version, offset, 0) == row_at_offset(
                    self.rows@,
                    version,
                    offset,
                    i as int,
                ),
            decreases self.rows@.len() - i,
        {
            if self.rows[i].record.normalization_version == version && self.rows[i].offset
                == offset {
                return Some(self.rows[i].record);
            }
            i = i + 1;
        }
        None
    }
}

/// What is found at an offset is the first row of the version that stands there.
pub proof fn lemma_row_at_offset(
    rows: Seq<ManiaNormalizedRow>,
    version: u32,
    offset: u64,
    from: int,
)
    requires
        0 <= from,
    ensures
        match row_at_offset(rows, version, offset, from) {
            Some(at) => from <= at < rows.len() && rows[at].record.normalization_version == version
                && rows[at].offset == offset && forall|i: int|
                from <= i < at ==> !((#[trigger] rows[i]).record.normalization_version == version
                    && rows[i].offset == offset),
            None => forall|i: int|
                from <= i < rows.len() ==> !((#[trigger] rows[i]).record.normalization_version
                    == version && rows[i].offset == offset),
        },
    decreases rows.len() - from,
{
    if from < rows.len() && !(rows[from].record.normalization_version == version
        && rows[from].offset == offset) {
        lemma_row_at_offset(rows, version, offset, from + 1);
    }
}

/// A beatmap is looked up among the rows of one version: what is found is the first of its rows,
/// and nothing is found only if it has none.
pub proof fn law_rows_are_found_by_beatmap(
    rows: Seq<ManiaNormalizedRow>,
    version: u32,
    beatmap_id: u64,
)
    ensures
        match row_with_id(rows, version, beatmap_id, 0) {
            Some(at) => 0 <= at < rows.len() && rows[at].record.normalization_version == version
                && rows[at].record.beatmap_id == beatmap_id && forall|i: int|
                0 <= i < at ==> !((#[trigger] rows[i]).record.normalization_version == version
                    && rows[i].record.beatmap_id == beatmap_id),
            None => forall|i: int|
                0 <= i < rows.len() ==> !((#[trigger] rows[i]).record.normalization_version
                    == version && rows[i].record.beatmap_id == beatmap_id),
        },
{
    lemma_row_with_id(rows, version, beatmap_id, 0);
}

proof fn lemma_row_with_id(
    rows: Seq<ManiaNormalizedRow>,
    version: u32,
    beatmap_id: u64,
    from: int,
)
    requires
        0 <= from,
    ensures
        match row_with_id(rows, version, beatmap_id, from) {
            Some(at) => from <= at < rows.len() && rows[at].record.normalization_version == version
                && rows[at].record.beatmap_id == beatmap_id && forall|i: int|
                from <= i < at ==> !((#[trigger] rows[i]).record.normalization_version == version
                    && rows[i].record.beatmap_id == beatmap_id),
            None => forall|i: int|
                from <= i < rows.len() ==> !((#[trigger] rows[i]).record.normalization_version
                    == version && rows[i].record.beatmap_id == beatmap_id),
        },
    decreases rows.len() - from,
{
    if from < rows.len() && !(rows[from].record.normalization_version == version
        && rows[from].record.beatmap_id == beatmap_id) {
        lemma_row_with_id(rows, version, beatmap_id, from + 1);
    }
}

/// A row is looked up by its offset among the rows of one version.
pub proof fn law_rows_are_found_by_offset(
    rows: Seq<ManiaNormalizedRow>,
    version: u32,
    offset: u64,
)
    ensures
        match row_at_offset(rows, version, offset, 0) {
            Some(at) => 0 <= at < rows.len() && rows[at].record.normalization_version == version
                && rows[at].offset == offset && forall|i: int|
                0 <= i < at ==> !((#[trigger] rows[i]).record.normalization_version == version
                    && rows[i].offset == offset),
            None => forall|i: int|
                0 <= i < rows.len() ==> !((#[trigger] rows[i]).record.normalization_version
                    == version && rows[i].offset == offset),
        },
{
    lemma_row_at_offset(rows, version, offset, 0);
}

/// The rows of a version are all rows that declare it, in order.
pub proof fn law_rows_of_a_version(rows: Seq<ManiaNormalizedRow>, version: u32)
    ensures
        rows_of(rows, version) == rows.filter(
            |row: ManiaNormalizedRow| row.record.normalization_version == version,
        ),
    decreases rows.len(),
{
    reveal(Seq::filter);
    if rows.len() > 0 {
        law_rows_of_a_version(rows.drop_last(), version);
    }
}

/// Vectors are listed field by field in the order in which they are stored.
pub proof fn law_mania_vectors_are_listed_by_field(
    difficulty: ManiaDifficultyVector,
    style: ManiaStyleVector,
    base: ManiaBaseFeatures,
)
    ensures
        difficulty.axes().len() == 8,
        difficulty.axes()[0] == difficulty.speed,
        difficulty.axes()[1] == difficulty.hand_stream,
        difficulty.axes()[2] == difficulty.jack,
        difficulty.axes()[3] == difficulty.chordjack,
        difficulty.axes()[4] == difficulty.technical,
        difficulty.axes()[5] == difficulty.stamina,
        difficulty.axes()[6] == difficulty.long_note,
        difficulty.axes()[7] == difficulty.course,
        style.axes().len() == 16,
        style.axes()[0] == style.stream,
        style.axes()[1] == style.chordstream,
        style.axes()[2] == style.jacks,
        style.axes()[3] == style.coordination,
        style.axes()[4] == style.density,
        style.axes()[5] == style.wildcard,
        style.axes()[6] == style.chord_rate,
        style.axes()[7] == style.large_chord_rate,
        style.axes()[8] == style.rotation_rate,
        style.axes()[9] == style.anchor_rate,
        style.axes()[10] == style.rhythm_entropy,
        style.axes()[11] == style.transition_entropy,
        style.axes()[12] == style.ln_note_ratio,
        style.axes()[13] == style.hold_occupancy,
        style.axes()[14] == style.hybrid_row_ratio,
        style.axes()[15] == style.peak_to_sustain_gap,
        base.columns().len() == 9,
        base.columns()[0] == base.bpm,
        base.columns()[1] == base.length_seconds,
        base.columns()[2] == base.active_length_seconds,
        base.columns()[3] == base.note_count,
        base.columns()[4] == base.row_count,
        base.columns()[5] == base.avg_nps,
        base.columns()[6] == base.peak_nps,
        base.columns()[7] == base.break_density,
        base.columns()[8] == base.sv_change_rate,
{
}

} // verus!
