//! The records of the osu!standard dataset.

use vstd::prelude::*;

use crate::float_bits::{F32, F64};

verus! {

/// Bump whenever a raw formula, dependency snapshot, or default weight changes.
pub const ANALYZER_VERSION: u32 = 4;

pub const ANALYZER_ALGORITHM_ID: &'static str = "five-dimension-slider-rosu-reading-v4";

/// Must exactly match the compatibility snapshot of the runtime that reads published data.
pub const ROSU_PP_VERSION: &'static str = "Apeuriox/rosu-pp@pp-rework-202607#9a073d29";

pub const READING_ALGORITHM_VERSION: &'static str = "rosu-reading-pp-rework-202607-v1";

pub const OVERLAP_ALGORITHM_VERSION: &'static str = "overlap-visibility-spatial-strain-v1";

pub const RAW_FEATURE_FILE: &'static str = "raw-features.bin";

#[derive(Clone, Copy, Debug, PartialEq, Eq, Structural, Default)]
pub struct DifficultyVector {
    pub aim: F32,
    pub speed: F32,
    pub reading: F32,
    pub slider: F32,
    pub overlap: F32,
}

impl DifficultyVector {
    /// The dimensions in the order in which they are stored.
    pub open spec fn dimensions(self) -> Seq<F32> {
        seq![self.aim, self.speed, self.reading, self.slider, self.overlap]
    }

    pub fn as_array(self) -> (values: [F32; 5])
        ensures
            values@ == self.dimensions(),
    {
        let values: [F32; 5] = [self.aim, self.speed, self.reading, self.slider, self.overlap];
        assert(values@ =~= self.dimensions());
        values
    }

    pub fn from_array(values: [F32; 5]) -> (vector: DifficultyVector)
        ensures
            vector.dimensions() == values@,
    {
        let vector = DifficultyVector {
            aim: values[0],
            speed: values[1],
            reading: values[2],
            slider: values[3],
            overlap: values[4],
        };
        assert(vector.dimensions() =~= values@);
        vector
    }
}

#[derive(Clone, Copy, Debug, PartialEq, Eq, Structural, Default)]
pub struct BaseFeatures {
    pub bpm: F32,
    pub ar: F32,
    pub od: F32,
    pub cs: F32,
    pub hp: F32,
    pub length_seconds: F32,
    pub object_count: F32,
    pub object_density: F32,
    pub circle_ratio: F32,
    pub slider_ratio: F32,
    pub spinner_ratio: F32,
    pub max_combo: F32,
}

#[derive(Clone, Copy, Debug, PartialEq, Eq, Structural, Default)]
pub struct OverlapStatistics {
    pub peak: F32,
    pub p95: F32,
    pub sustained_ratio: F32,
    pub stack_rate: F32,
    pub slider_occlusion_rate: F32,
    pub path_crossing_rate: F32,
}

#[derive(Clone, Copy, Debug, PartialEq, Eq, Structural, Default)]
pub struct BeatmapFeatureRecord {
    pub beatmap_id: u64,
    pub beatmapset_id: u64,
    pub difficulty: DifficultyVector,
    pub base: BaseFeatures,
    pub overlap: OverlapStatistics,
    pub analyzer_version: u32,
    pub normalization_version: u32,
    pub mod_profile: u32,
    pub flags: u32,
}

#[derive(Clone, Copy, Debug, PartialEq, Eq, Structural, Default)]
pub struct RawFeatureRecord {
    pub beatmap_id: u64,
    pub beatmapset_id: u64,
    pub raw_difficulty: DifficultyVector,
    pub base: BaseFeatures,
    pub overlap: OverlapStatistics,
    pub analyzer_version: u32,
    pub mod_profile: u32,
}

/// The statistics of the published records in one tenth of a star.
#[derive(Clone, Copy, Debug, PartialEq, Eq, Structural, Default)]
pub struct StarSectionStats {
    pub star_section: i64,
    pub analyzer_version: u32,
    pub normalization_version: u32,
    pub sample_count: u64,
    pub sums: DimensionSums,
    pub sum_squares: DimensionSums,
    pub ar_sum: F64,
    pub cs_sum: F64,
    pub od_sum: F64,
    pub ar_sum_squares: F64,
    pub cs_sum_squares: F64,
    pub od_sum_squares: F64,
}

/// A sum for each dimension of difficulty.
#[derive(Clone, Copy, Debug, PartialEq, Eq, Structural, Default)]
pub struct DimensionSums {
    pub aim: F64,
    pub speed: F64,
    pub reading: F64,
    pub slider: F64,
    pub overlap: F64,
}

#[derive(Clone, Debug)]
pub struct BeatmapMetadata {
    pub beatmap_id: u64,
    pub beatmapset_id: u64,
    pub checksum: String,
    pub artist: String,
    pub title: String,
    pub version: String,
    pub creator: String,
    pub online_url: String,
    pub star_rating: F64,
}

#[derive(Clone, Copy, Debug, PartialEq, Eq, Structural)]
pub struct DifficultyWeights {
    pub aim: F32,
    pub speed: F32,
    pub reading: F32,
    pub slider: F32,
    pub overlap: F32,
}

/// The encoding of 1.0.
pub const ONE: u32 = 0x3f80_0000;

/// The encoding of 0.10.
pub const TENTH: u32 = 0x3dcc_cccd;

/// The encoding of 0.15.
pub const THREE_TWENTIETHS: u32 = 0x3e19_999a;

/// The encoding of 0.20.
pub const FIFTH: u32 = 0x3e4c_cccd;

/// The encoding of 0.25.
pub const QUARTER: u32 = 0x3e80_0000;

impl Default for DifficultyWeights {
    /// All dimensions count the same.
    fn default() -> (weights: DifficultyWeights)
        ensures
            weights == (DifficultyWeights {
                aim: (F32 { bits: ONE }),
                speed: (F32 { bits: ONE }),
                reading: (F32 { bits: ONE }),
                slider: (F32 { bits: ONE }),
                overlap: (F32 { bits: ONE }),
            }),
    {
        let one: F32 = F32::from_bits(ONE);
        DifficultyWeights { aim: one, speed: one, reading: one, slider: one, overlap: one }
    }
}

#[derive(Clone, Copy, Debug, PartialEq, Eq, Structural)]
pub struct BaseFeatureWeights {
    pub bpm: F32,
    pub ar: F32,
    pub length_seconds: F32,
    pub object_density: F32,
    pub circle_ratio: F32,
    pub slider_ratio: F32,
}

impl Default for BaseFeatureWeights {
    fn default() -> (weights: BaseFeatureWeights)
        ensures
            weights == (BaseFeatureWeights {
                bpm: (F32 { bits: THREE_TWENTIETHS }),
                ar: (F32 { bits: THREE_TWENTIETHS }),
                length_seconds: (F32 { bits: TENTH }),
                object_density: (F32 { bits: QUARTER }),
                circle_ratio: (F32 { bits: THREE_TWENTIETHS }),
                slider_ratio: (F32 { bits: FIFTH }),
            }),
    {
        BaseFeatureWeights {
            bpm: F32::from_bits(THREE_TWENTIETHS),
            ar: F32::from_bits(THREE_TWENTIETHS),
            length_seconds: F32::from_bits(TENTH),
            object_density: F32::from_bits(QUARTER),
            circle_ratio: F32::from_bits(THREE_TWENTIETHS),
            slider_ratio: F32::from_bits(FIFTH),
        }
    }
}

#[derive(Clone, Copy, Debug, PartialEq, Eq, Structural)]
pub struct QueryFilters {
    pub min_ar: Option<F32>,
    pub max_ar: Option<F32>,
    pub min_bpm: Option<F32>,
    pub max_bpm: Option<F32>,
    pub beatmapset_id: Option<u64>,
}

impl Default for QueryFilters {
    /// No filter.
    fn default() -> (filters: QueryFilters)
        ensures
            filters == (QueryFilters {
                min_ar: None,
                max_ar: None,
                min_bpm: None,
                max_bpm: None,
                beatmapset_id: None,
            }),
    {
        QueryFilters {
            min_ar: None,
            max_ar: None,
            min_bpm: None,
            max_bpm: None,
            beatmapset_id: None,
        }
    }
}

#[derive(Clone, Copy, Debug, PartialEq, Eq, Structural)]
pub struct SimilarityQuery {
    pub beatmap_id: u64,
    pub mod_profile: u32,
    pub difficulty_weights: DifficultyWeights,
    pub base_weights: BaseFeatureWeights,
    pub filters: QueryFilters,
    pub candidate_limit: usize,
    pub result_limit: usize,
}

impl Default for SimilarityQuery {
    fn default() -> (query: SimilarityQuery)
        ensures
            query.beatmap_id == 0,
            query.mod_profile == 0,
            query.candidate_limit == 256,
            query.result_limit == 20,
            query.filters == (QueryFilters {
                min_ar: None,
                max_ar: None,
                min_bpm: None,
                max_bpm: None,
                beatmapset_id: None,
            }),
            query.difficulty_weights == (DifficultyWeights {
                aim: (F32 { bits: ONE }),
                speed: (F32 { bits: ONE }),
                reading: (F32 { bits: ONE }),
                slider: (F32 { bits: ONE }),
                overlap: (F32 { bits: ONE }),
            }),
            query.base_weights == (BaseFeatureWeights {
                bpm: (F32 { bits: THREE_TWENTIETHS }),
                ar: (F32 { bits: THREE_TWENTIETHS }),
                length_seconds: (F32 { bits: TENTH }),
                object_density: (F32 { bits: QUARTER }),
                circle_ratio: (F32 { bits: THREE_TWENTIETHS }),
                slider_ratio: (F32 { bits: FIFTH }),
            }),
    {
        SimilarityQuery {
            beatmap_id: 0,
            mod_profile: 0,
            difficulty_weights: DifficultyWeights::default(),
            base_weights: BaseFeatureWeights::default(),
            filters: QueryFilters::default(),
            candidate_limit: 256,
            result_limit: 20,
        }
    }
}

#[derive(Clone, Copy, Debug, PartialEq, Eq, Structural)]
pub struct SimilarityResult {
    pub beatmap_id: u64,
    pub beatmapset_id: u64,
    pub final_distance: F32,
    pub difficulty_distance: F32,
    pub base_distance: F32,
    pub difficulty: DifficultyVector,
}

/// The dimensions of difficulty are listed field by field in the order in which they are stored.
pub proof fn law_dimensions_are_listed_by_field(difficulty: DifficultyVector)
    ensures
        difficulty.dimensions().len() == 5,
        difficulty.dimensions()[0] == difficulty.aim,
        difficulty.dimensions()[1] == difficulty.speed,
        difficulty.dimensions()[2] == difficulty.reading,
        difficulty.dimensions()[3] == difficulty.slider,
        difficulty.dimensions()[4] == difficulty.overlap,
{
}

} // verus!
