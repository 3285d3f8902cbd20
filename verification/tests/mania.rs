use std::collections::BTreeMap;

use osu_difficulty_lab::float_bits::F32;
use osu_difficulty_lab::mania::{
    ManiaBaseFeatures, ManiaBeatmapMetadata, ManiaDifficultyVector, ManiaFeatureRecord,
    ManiaFeatureStore, ManiaModeFamily, ManiaNormalizedRow, ManiaPattern, ManiaRawFeatureRecord,
    ManiaStyleVector, MANIA_ANALYZER_VERSION,
};
use osu_difficulty_lab::mania_file::{
    decode_mania_index, encode_mania_index, read_mania_index, write_mania_index, ManiaFileError,
};
use osu_difficulty_lab::mania_index::{
    build_mania_index, excluded_entry, validate_mania_index_coverage, ManiaBucketEntry,
    ManiaBucketIndex, ManiaDistance, ManiaDistanceComponents, ManiaIndexError,
    ManiaSimilarityQuery, ManiaSimilarityResult, ManiaSimilarityStore,
};
use osu_difficulty_lab::mania_normalizer::{
    fit_mania_normalizer, mania_normalizer_file, midrank, normalized_mania_record, sorted_values,
    ManiaNormalizer, ManiaNormalizerError, Midrank,
};
use osu_difficulty_lab::normalizer_file::{
    decode_mania_normalizer, encode_mania_normalizer, ManiaLoadError,
};
use osu_difficulty_lab::paths::index_path;

const RC: ManiaModeFamily = ManiaModeFamily { code: 0 };
const LN: ManiaModeFamily = ManiaModeFamily { code: 1 };

fn f(value: f32) -> F32 {
    F32::from_bits(value.to_bits())
}

fn float(value: F32) -> f32 {
    f32::from_bits(value.bits)
}

fn fraction(rank: Midrank) -> f32 {
    (rank.twice_position as f32 / rank.twice_last as f32).clamp(0.0, 1.0)
}

fn overall_intensity(values: [f32; 8]) -> f32 {
    let maximum = values.into_iter().fold(0.0_f32, f32::max);
    let rms = (values.into_iter().map(|value| value * value).sum::<f32>() / 8.0).sqrt();
    let mut sorted = values;
    sorted.sort_by(|left, right| right.total_cmp(left));
    let top_three = (sorted[0] + sorted[1] + sorted[2]) / 3.0;
    (0.50 * maximum + 0.30 * rms + 0.20 * top_three).clamp(0.0, 1.0)
}

fn fit(records: &Vec<ManiaRawFeatureRecord>, version: u32) -> ManiaNormalizer {
    let mut normalizer = fit_mania_normalizer(records, version).ok().unwrap();
    let intensities: Vec<F32> = records
        .iter()
        .map(|record| {
            let ranks = normalizer.transform(record).ok().unwrap();
            f(overall_intensity(ranks.axes.map(fraction)))
        })
        .collect();
    normalizer.set_intensities(records, &intensities);
    normalizer
}

fn normalize(normalizer: &ManiaNormalizer, raw: &ManiaRawFeatureRecord) -> ManiaFeatureRecord {
    let ranks = normalizer.transform(raw).ok().unwrap();
    let difficulty = ranks.axes.map(fraction);
    let overall = overall_intensity(difficulty);
    let percentile = fraction(normalizer.keys[ranks.cohort].rank_overall(f(overall)));
    normalized_mania_record(
        raw,
        ManiaDifficultyVector::from_array(difficulty.map(f)),
        f(percentile),
        ((percentile * 10.0).floor() as u8).min(9),
        normalizer.version,
    )
}

fn store_of(records: &[ManiaRawFeatureRecord], version: u32) -> ManiaFeatureStore {
    let raws = records.to_vec();
    let normalizer = fit(&raws, version);
    let mut metadata = BTreeMap::new();
    let mut rows = Vec::new();
    for (index, raw) in raws.iter().enumerate() {
        rows.push(ManiaNormalizedRow {
            offset: 32 + 200 * index as u64,
            record: normalize(&normalizer, raw),
        });
        metadata.insert(
            raw.beatmap_id,
            ManiaBeatmapMetadata {
                beatmap_id: raw.beatmap_id,
                beatmapset_id: raw.beatmapset_id,
                checksum: format!("{}", raw.beatmap_id),
                artist: "artist".into(),
                title: "title".into(),
                version: format!("v{}", raw.beatmap_id),
                creator: "creator".into(),
                online_url: String::new(),
                key_count: raw.key_count,
                mode_family: raw.mode_family,
                dominant_pattern: raw.dominant_pattern,
            },
        );
    }
    rows.sort_by_key(|row| row.record.beatmap_id);
    ManiaFeatureStore {
        root: "data".to_owned(),
        rows,
        metadata,
    }
}

fn chart(id: u64, set: u64, keys: u8, value: f32, family: ManiaModeFamily) -> ManiaRawFeatureRecord {
    let mut style = ManiaStyleVector::default();
    if family == RC {
        style.stream = f(1.0);
    } else {
        style.wildcard = f(1.0);
        style.ln_note_ratio = f(1.0);
    }
    ManiaRawFeatureRecord {
        beatmap_id: id,
        beatmapset_id: set,
        difficulty: ManiaDifficultyVector::from_array([f(value); 8]),
        style,
        key_count: keys,
        mode_family: family,
        dominant_pattern: ManiaPattern { code: family.code },
        analyzer_version: MANIA_ANALYZER_VERSION,
        ..ManiaRawFeatureRecord::default()
    }
}

fn hellinger<const N: usize>(left: &[f32; N], right: &[f32; N]) -> f32 {
    let epsilon = 1e-6_f32;
    let left_sum = left.iter().sum::<f32>() + epsilon * N as f32;
    let right_sum = right.iter().sum::<f32>() + epsilon * N as f32;
    (left
        .iter()
        .zip(right)
        .map(|(left, right)| {
            let left = ((*left + epsilon) / left_sum).sqrt();
            let right = ((*right + epsilon) / right_sum).sqrt();
            (left - right).powi(2)
        })
        .sum::<f32>()
        / 2.0)
        .sqrt()
        .clamp(0.0, 1.0)
}

fn distance(target: &ManiaFeatureRecord, candidate: &ManiaFeatureRecord) -> ManiaDistance {
    let skill = hellinger(
        &target.difficulty.as_array().map(float),
        &candidate.difficulty.as_array().map(float),
    );
    let styles = (
        target.style.as_array().map(float),
        candidate.style.as_array().map(float),
    );
    let patterns: ([f32; 6], [f32; 6]) = (
        styles.0[..6].try_into().unwrap(),
        styles.1[..6].try_into().unwrap(),
    );
    let pattern = hellinger(&patterns.0, &patterns.1);
    let structure = (styles.0[6..]
        .iter()
        .zip(&styles.1[6..])
        .map(|(left, right)| (left - right).powi(2))
        .sum::<f32>()
        / 10.0)
        .sqrt()
        .clamp(0.0, 1.0);
    let difficulty =
        (float(target.difficulty_percentile) - float(candidate.difficulty_percentile)).abs();
    let context = 0.5
        * log_ratio_distance(float(target.base.bpm), float(candidate.base.bpm), 4.0)
        + 0.5
            * log_ratio_distance(
                float(target.base.active_length_seconds),
                float(candidate.base.active_length_seconds),
                10.0,
            );
    ManiaDistance {
        components: ManiaDistanceComponents {
            skill: f(skill),
            pattern: f(pattern),
            structure: f(structure),
            difficulty: f(difficulty),
            context: f(context),
        },
        final_distance: f(
            0.35 * skill + 0.30 * pattern + 0.20 * structure + 0.10 * difficulty + 0.05 * context,
        ),
    }
}

fn log_ratio_distance(left: f32, right: f32, maximum_ratio: f32) -> f32 {
    (((left.max(0.0) + 1.0) / (right.max(0.0) + 1.0)).ln().abs() / maximum_ratio.ln())
        .clamp(0.0, 1.0)
}

fn query(
    index: &ManiaSimilarityStore,
    store: &ManiaFeatureStore,
    id: u64,
    query: ManiaSimilarityQuery,
) -> Vec<ManiaSimilarityResult> {
    let target = store.normalized_for_id(1, id).unwrap();
    let entries = index.candidates(&target, query).ok().unwrap();
    let records = index.candidate_records(store, &entries).ok().unwrap();
    let distances = records
        .iter()
        .map(|record| distance(&target, record))
        .collect();
    index.query_by_id(store, id, query, &distances).ok().unwrap()
}

fn opened(store: &ManiaFeatureStore) -> ManiaSimilarityStore {
    let index = build_mania_index(store, 1).ok().unwrap();
    let file = write_mania_index(&index).unwrap();
    let read = read_mania_index(&file.bytes, &file.checksum).unwrap();
    ManiaSimilarityStore::open("data".to_owned(), 1, read).ok().unwrap()
}

#[test]
fn query_expands_sparse_bands_and_excludes_same_set() {
    let store = store_of(
        &[
            chart(10, 1, 4, 1.0, LN),
            chart(11, 1, 4, 1.1, LN),
            chart(20, 2, 4, 5.0, LN),
            chart(30, 3, 4, 9.0, RC),
        ],
        1,
    );
    let index = opened(&store);
    let results = query(
        &index,
        &store,
        10,
        ManiaSimilarityQuery {
            result_limit: 2,
            include_same_set: false,
        },
    );
    assert!(results.iter().all(|result| result.beatmapset_id != 1));
    assert_eq!(results.first().map(|result| result.beatmap_id), Some(20));
    let with_same_set = query(
        &index,
        &store,
        10,
        ManiaSimilarityQuery {
            result_limit: 2,
            include_same_set: true,
        },
    );
    assert_eq!(
        with_same_set.first().map(|result| result.beatmap_id),
        Some(11)
    );
    let built = build_mania_index(&store, 1).ok().unwrap();
    assert_eq!(validate_mania_index_coverage(&store, 1, &built), Ok(()));
}

#[test]
fn equal_distances_are_stably_sorted_by_beatmap_id() {
    let store = store_of(
        &[
            chart(10, 1, 4, 1.0, RC),
            chart(30, 3, 4, 1.0, RC),
            chart(20, 2, 4, 1.0, RC),
        ],
        1,
    );
    let results = query(
        &opened(&store),
        &store,
        10,
        ManiaSimilarityQuery {
            result_limit: 2,
            include_same_set: false,
        },
    );
    assert_eq!(
        results
            .iter()
            .map(|result| result.beatmap_id)
            .collect::<Vec<_>>(),
        vec![20, 30]
    );
    assert!(results.iter().all(|result| {
        float(result.final_distance) == 0.0
            && float(result.components.skill) == 0.0
            && float(result.components.pattern) == 0.0
            && float(result.components.structure) == 0.0
            && float(result.components.difficulty) == 0.0
            && float(result.components.context) == 0.0
    }));
}

#[test]
fn corrupted_index_fails_checksum_validation() {
    let store = store_of(&[chart(10, 1, 4, 1.0, RC)], 1);
    let index = build_mania_index(&store, 1).ok().unwrap();
    let file = write_mania_index(&index).unwrap();
    let error = read_mania_index(b"corrupt", &file.checksum).err().unwrap();
    assert_eq!(error, ManiaFileError::Checksum);
    assert_eq!(
        error.message(&index_path("data", 1)),
        "mania bucket index checksum mismatch: data/indexes/mania-v1.buckets"
    );
}

#[test]
fn index_files_hold_the_numbers_in_order() {
    let store = store_of(&[chart(10, 1, 4, 1.0, LN)], 1);
    let index = build_mania_index(&store, 1).ok().unwrap();
    let bytes = encode_mania_index(&index).unwrap();
    let mut expected: Vec<u8> = Vec::new();
    expected.extend(1_u32.to_le_bytes());
    expected.extend(MANIA_ANALYZER_VERSION.to_le_bytes());
    expected.extend(1_u64.to_le_bytes());
    expected.extend([4, 5]);
    expected.extend(1_u64.to_le_bytes());
    expected.extend(10_u64.to_le_bytes());
    expected.extend(1_u64.to_le_bytes());
    expected.extend(1_u32.to_le_bytes());
    expected.extend(32_u64.to_le_bytes());
    assert_eq!(bytes, expected);
    let mut longer = bytes.clone();
    longer.push(7);
    let read = decode_mania_index(&longer).unwrap();
    assert_eq!(read.buckets.len(), 1);
    assert_eq!(read.buckets[0].entries, index.buckets[0].entries);
    assert_eq!(
        decode_mania_index(&bytes[..bytes.len() - 1]).err(),
        Some(ManiaFileError::Format)
    );
    let mut family = bytes.clone();
    family[16 + 10 + 17] = 1;
    assert_eq!(
        decode_mania_index(&family).err(),
        Some(ManiaFileError::Format)
    );
    assert_eq!(
        ManiaFileError::Format.message("x"),
        "invalid mania bucket index: x"
    );
}

#[test]
fn normalization_is_independent_per_key_count() {
    let store = store_of(
        &[
            chart(10, 1, 4, 1.0, RC),
            chart(20, 2, 4, 2.0, RC),
            chart(60, 6, 6, 100.0, RC),
            chart(70, 7, 6, 200.0, RC),
        ],
        1,
    );
    let record = |id: u64| store.normalized_for_id(1, id).unwrap();
    assert_eq!(float(record(10).difficulty.speed), 0.0);
    assert_eq!(float(record(20).difficulty.speed), 1.0);
    assert_eq!(float(record(60).difficulty.speed), 0.0);
    assert_eq!(float(record(70).difficulty.speed), 1.0);
    assert_eq!(record(10).difficulty_band, 0);
    assert_eq!(record(20).difficulty_band, 9);
}

#[test]
fn duplicate_values_receive_the_same_midrank() {
    let rank = midrank(&vec![f(1.0), f(1.0), f(2.0)], f(1.0));
    assert_eq!(
        rank,
        Midrank {
            twice_position: 1,
            twice_last: 4
        }
    );
    assert_eq!(fraction(rank), 0.25);
}

#[test]
fn midranks_cover_the_edges() {
    assert_eq!(fraction(midrank(&vec![f(3.0)], f(9.0))), 0.5);
    assert_eq!(fraction(midrank(&Vec::new(), f(9.0))), 0.5);
    let values = vec![f(1.0), f(2.0), f(4.0)];
    assert_eq!(fraction(midrank(&values, f(3.0))), 1.0);
    assert_eq!(fraction(midrank(&values, f(0.0))), 0.0);
    assert_eq!(fraction(midrank(&values, f(9.0))), 1.0);
    assert_eq!(fraction(midrank(&values, f(2.0))), 0.5);
    let rank = midrank(&vec![f(1.0), f(2.0)], f(5.0));
    assert_eq!(
        rank,
        Midrank {
            twice_position: 2,
            twice_last: 2
        }
    );
    assert_eq!(
        sorted_values(&vec![f(2.0), f(-0.0), f(0.0), f(-3.0)]),
        vec![f(-3.0), f(-0.0), f(0.0), f(2.0)]
    );
}

#[test]
fn transform_rejects_analyzer_version_mismatch() {
    let records = vec![chart(10, 1, 4, 1.0, RC)];
    let normalizer = fit(&records, 1);
    let mut raw = records[0];
    raw.analyzer_version += 1;
    assert_eq!(
        normalizer.transform(&raw).err(),
        Some(ManiaNormalizerError::RecordVersion)
    );
}

#[test]
fn transform_rejects_values_out_of_range_and_unknown_key_counts() {
    let records = vec![chart(10, 1, 4, 1.0, RC)];
    let normalizer = fit(&records, 1);
    let mut raw = records[0];
    raw.difficulty.jack = f(-1.0);
    assert_eq!(
        normalizer.transform(&raw).err(),
        Some(ManiaNormalizerError::Range)
    );
    let mut raw = records[0];
    raw.style.stream = f(1.5);
    assert_eq!(
        normalizer.transform(&raw).err(),
        Some(ManiaNormalizerError::Range)
    );
    let error = normalizer.transform(&chart(10, 1, 7, 1.0, RC)).err().unwrap();
    assert_eq!(error, ManiaNormalizerError::NoCohort { key_count: 7 });
    assert_eq!(error.message(), "normalizer has no 7K cohort");
    assert_eq!(
        fit_mania_normalizer(&records, 0).err(),
        Some(ManiaNormalizerError::ZeroVersion)
    );
    assert_eq!(
        fit_mania_normalizer(&Vec::new(), 1).err(),
        Some(ManiaNormalizerError::NoRecords)
    );
    let mut outside = records[0];
    outside.style.stream = f(1.5);
    assert_eq!(
        fit_mania_normalizer(&vec![records[0], outside], 1).err(),
        Some(ManiaNormalizerError::Range)
    );
    let mut stale = records[0];
    stale.analyzer_version += 1;
    assert_eq!(
        fit_mania_normalizer(&vec![records[0], stale, outside], 1).err(),
        Some(ManiaNormalizerError::RecordVersion)
    );
    assert_eq!(
        normalizer.accept_loaded(2).err(),
        Some(ManiaNormalizerError::StoredVersion)
    );
}

#[test]
fn rebuilding_the_same_corpus_is_deterministic() {
    let records = vec![chart(10, 1, 4, 1.0, RC), chart(20, 2, 4, 2.0, RC)];
    let first = fit(&records, 1);
    let second = fit(&records, 1);
    assert_eq!(mania_normalizer_file(first.version), "mania-v1.bin");
    assert_eq!(
        encode_mania_normalizer(&first).unwrap(),
        encode_mania_normalizer(&second).unwrap()
    );
    assert_eq!(
        store_of(&records, 1).rows,
        store_of(&records, 1).rows
    );
    assert!(fit(&records, 1).accept_loaded(1).is_ok());
}

#[test]
fn intensities_go_to_the_cohorts_of_their_records() {
    let records = vec![
        chart(10, 1, 4, 1.0, RC),
        chart(60, 6, 7, 3.0, LN),
        chart(20, 2, 4, 2.0, RC),
    ];
    let mut normalizer = fit_mania_normalizer(&records, 1).ok().unwrap();
    assert!(normalizer.keys[0].overall.is_empty());
    let axes = normalizer.keys[0].axes.clone();
    normalizer.set_intensities(&records, &vec![f(0.75), f(0.5), f(0.25)]);
    assert_eq!(normalizer.keys.len(), 2);
    assert_eq!(normalizer.keys[0].key_count, 4);
    assert_eq!(normalizer.keys[0].axes, axes);
    assert_eq!(normalizer.keys[0].overall, vec![f(0.25), f(0.75)]);
    assert_eq!(normalizer.keys[1].key_count, 7);
    assert_eq!(normalizer.keys[1].overall, vec![f(0.5)]);
    assert!(normalizer.transform(&records[1]).is_ok());
}

#[test]
fn saved_mania_normalizers_load_back() {
    let records = vec![
        chart(10, 1, 4, 1.0, RC),
        chart(20, 2, 4, 2.0, RC),
        chart(60, 6, 7, 3.0, LN),
    ];
    let normalizer = fit(&records, 3);
    let bytes = encode_mania_normalizer(&normalizer).unwrap();
    let cohort = |members: usize| 1 + 9 * (8 + 4 * members);
    assert_eq!(bytes.len(), 16 + cohort(2) + cohort(1));
    let loaded = decode_mania_normalizer(&bytes, 3).ok().unwrap();
    assert_eq!(loaded.keys.len(), 2);
    assert_eq!(loaded.keys[1].key_count, 7);
    assert_eq!(loaded.keys[0].axes, normalizer.keys[0].axes);
    assert_eq!(loaded.keys[0].overall, normalizer.keys[0].overall);
    assert!(matches!(
        decode_mania_normalizer(&bytes, 4),
        Err(ManiaLoadError::Version {
            error: ManiaNormalizerError::StoredVersion
        })
    ));
    assert!(matches!(
        decode_mania_normalizer(&bytes[1..], 3),
        Err(ManiaLoadError::Format { .. })
    ));
}

#[test]
fn coverage_finds_missing_moved_and_repeated_entries() {
    let store = store_of(
        &[chart(10, 1, 4, 1.0, RC), chart(20, 2, 4, 2.0, RC)],
        1,
    );
    let build = || build_mania_index(&store, 1).ok().unwrap();
    assert_eq!(
        build_mania_index(&store, 2).err(),
        Some(ManiaIndexError::Empty)
    );
    let twice = store_of(
        &[chart(10, 1, 4, 1.0, RC), chart(10, 1, 4, 2.0, RC)],
        1,
    );
    assert_eq!(
        build_mania_index(&twice, 1).err(),
        Some(ManiaIndexError::DuplicateBeatmap { beatmap_id: 10 })
    );
    let index = build();
    assert_eq!(index.buckets.len(), 2);
    assert_eq!(
        encode_mania_index(&index).unwrap(),
        encode_mania_index(&build()).unwrap()
    );
    assert_eq!(
        (index.buckets[0].key_count, index.buckets[0].difficulty_band),
        (4, 0)
    );
    let mut missing = build();
    missing.buckets.pop();
    assert_eq!(
        validate_mania_index_coverage(&store, 1, &missing),
        Err(ManiaIndexError::Coverage)
    );
    let mut moved = build();
    moved.buckets[0].entries[0].normalized_offset += 1;
    assert_eq!(
        validate_mania_index_coverage(&store, 1, &moved),
        Err(ManiaIndexError::Coverage)
    );
    let mut repeated = build();
    let entry: ManiaBucketEntry = repeated.buckets[0].entries[0];
    repeated.buckets[1].entries.push(entry);
    assert_eq!(
        validate_mania_index_coverage(&store, 1, &repeated),
        Err(ManiaIndexError::DuplicateBeatmap { beatmap_id: 10 })
    );
    let mut version = build();
    version.analyzer_version += 1;
    assert_eq!(
        validate_mania_index_coverage(&store, 1, &version),
        Err(ManiaIndexError::DatasetVersion)
    );
    assert_eq!(
        ManiaSimilarityStore::open("data".to_owned(), 1, version).err(),
        Some(ManiaIndexError::ActiveVersion)
    );
}

#[test]
fn smaller_limits_cut_the_results() {
    let charts: Vec<ManiaRawFeatureRecord> = (0..20)
        .map(|at: u64| chart(10 + at, 1 + at, 4, 1.0 + at as f32, RC))
        .collect();
    let store = store_of(&charts, 1);
    let index = opened(&store);
    let ids = |limit: usize| {
        query(
            &index,
            &store,
            10,
            ManiaSimilarityQuery {
                result_limit: limit,
                include_same_set: false,
            },
        )
        .iter()
        .map(|result| result.beatmap_id)
        .collect::<Vec<u64>>()
    };
    let all = ids(16);
    assert_eq!(all.len(), 16);
    for limit in 1..16 {
        assert_eq!(ids(limit), all[..limit]);
    }
    let mut distinct = all.clone();
    distinct.sort();
    distinct.dedup();
    assert_eq!(distinct.len(), 16);
}

#[test]
fn queries_refuse_bad_limits_targets_and_indexes() {
    let store = store_of(
        &[chart(10, 1, 4, 1.0, RC), chart(20, 2, 4, 2.0, RC)],
        1,
    );
    let index = opened(&store);
    assert_eq!(index.root(), "data");
    let ask = |limit: usize| ManiaSimilarityQuery {
        result_limit: limit,
        include_same_set: false,
    };
    let none: Vec<ManiaDistance> = Vec::new();
    for limit in [0, 101] {
        assert_eq!(
            index.query_by_id(&store, 10, ask(limit), &none).err(),
            Some(ManiaIndexError::ResultLimit)
        );
    }
    assert_eq!(
        index.query_by_id(&store, 99, ask(5), &none).err(),
        Some(ManiaIndexError::UnknownTarget { beatmap_id: 99 })
    );
    let mut target = store.normalized_for_id(1, 10).unwrap();
    target.normalization_version = 2;
    assert_eq!(
        index.query_record(&store, &target, ask(5), &none).err(),
        Some(ManiaIndexError::TargetVersion)
    );
    let mut stale: ManiaBucketIndex = build_mania_index(&store, 1).ok().unwrap();
    stale.buckets[1].entries[0].mode_family = LN;
    let stale = ManiaSimilarityStore::open("data".to_owned(), 1, stale).ok().unwrap();
    let target = store.normalized_for_id(1, 10).unwrap();
    let distances = vec![distance(&target, &target)];
    let error = stale.query_record(&store, &target, ask(5), &distances).err().unwrap();
    assert_eq!(error, ManiaIndexError::EntryMismatch { beatmap_id: 20 });
    assert_eq!(
        error.message(),
        "mania index entry 20 does not match its normalized record"
    );
}

#[test]
fn exclusion_needs_a_known_set() {
    let mut target = ManiaFeatureRecord {
        beatmap_id: 10,
        beatmapset_id: 1,
        ..ManiaFeatureRecord::default()
    };
    let mut entry = ManiaBucketEntry {
        beatmap_id: 11,
        beatmapset_id: 1,
        mode_family: RC,
        normalized_offset: 0,
    };
    assert!(excluded_entry(&target, &entry, false));
    assert!(!excluded_entry(&target, &entry, true));
    target.beatmapset_id = 0;
    entry.beatmapset_id = 0;
    assert!(!excluded_entry(&target, &entry, false));
    entry.beatmap_id = 10;
    assert!(excluded_entry(&target, &entry, true));
    assert_eq!(ManiaBaseFeatures::default().as_array(), [f(0.0); 9]);
}
