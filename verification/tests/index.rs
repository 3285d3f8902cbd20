use osu_difficulty_lab::float_bits::{F32, F64};
use osu_difficulty_lab::index::{
    add_label, labels_at, matches_filters, rank_candidates, records_to_index, search_extent,
    validate_index_coverage, Candidate, IndexError, IndexLabels, SimilarityDistance,
    SimilarityStore,
};
use osu_difficulty_lab::publish::SectionSums;
use osu_difficulty_lab::store::{FeatureStore, StoreError, Tables};
use osu_difficulty_lab::types::{
    BaseFeatures, BeatmapFeatureRecord, BeatmapMetadata, DifficultyVector, DimensionSums,
    QueryFilters, RawFeatureRecord, SimilarityQuery, ANALYZER_VERSION,
};

fn f(value: f32) -> F32 {
    F32::from_bits(value.to_bits())
}

fn d(value: f64) -> F64 {
    F64::from_bits(value.to_bits())
}

fn add_record(
    store: &mut FeatureStore,
    id: u64,
    stars: f64,
    difficulty: [f32; 5],
) -> BeatmapFeatureRecord {
    let metadata = BeatmapMetadata {
        beatmap_id: id,
        beatmapset_id: id / 10,
        checksum: format!("checksum-{id}"),
        artist: "artist".into(),
        title: "title".into(),
        version: "version".into(),
        creator: "creator".into(),
        online_url: format!("https://osu.ppy.sh/b/{id}"),
        star_rating: d(stars),
    };
    let raw = RawFeatureRecord {
        beatmap_id: id,
        beatmapset_id: id / 10,
        analyzer_version: ANALYZER_VERSION,
        mod_profile: 0,
        ..RawFeatureRecord::default()
    };
    store
        .append_raw(&metadata, &raw, (stars / 0.1 + 1e-6).floor() as i64)
        .unwrap();
    BeatmapFeatureRecord {
        beatmap_id: id,
        beatmapset_id: id / 10,
        difficulty: DifficultyVector::from_array(difficulty.map(f)),
        analyzer_version: ANALYZER_VERSION,
        normalization_version: 1,
        mod_profile: 0,
        ..BeatmapFeatureRecord::default()
    }
}

fn sums(value: f64) -> SectionSums {
    let dimension = DimensionSums {
        aim: d(value),
        speed: d(value),
        reading: d(value),
        slider: d(value),
        overlap: d(value),
    };
    SectionSums {
        sums: dimension,
        sum_squares: dimension,
        ar_sum: d(0.0),
        cs_sum: d(0.0),
        od_sum: d(0.0),
        ar_sum_squares: d(0.0),
        cs_sum_squares: d(0.0),
        od_sum_squares: d(0.0),
    }
}

fn open() -> FeatureStore {
    FeatureStore::open("data".to_owned(), Tables::new())
}

fn labels(version: u32, ids: &[u64]) -> Option<IndexLabels> {
    Some(IndexLabels {
        normalization_version: version,
        labels: ids.to_vec(),
    })
}

#[test]
fn statistics_cover_records_split_between_main_and_delta() {
    let mut store = open();
    let main = add_record(&mut store, 10, 5.71, [0.1; 5]);
    let delta = add_record(&mut store, 20, 5.79, [0.2; 5]);
    let sections = vec![57, 57];
    let group = vec![sums(0.3)];
    store
        .write_normalized(1, &vec![main, delta], &sections, &group)
        .unwrap();

    validate_index_coverage(&store, 1, &labels(1, &[10]), &labels(1, &[20])).unwrap();
    store
        .validate_star_section_stats(1, &sections, &group)
        .unwrap();
    assert_eq!(
        store
            .star_section_stats(1)
            .unwrap()
            .iter()
            .map(|stat| stat.sample_count)
            .sum::<u64>(),
        2
    );
    let records = records_to_index(&store, 1, &sections, &group).unwrap();
    assert_eq!(records, vec![main, delta]);
    assert_eq!(
        records_to_index(&store, 1, &sections, &vec![sums(0.4)]),
        Err(IndexError::Store {
            error: StoreError::StatsMismatch
        })
    );
}

#[test]
fn coverage_tells_what_is_wrong() {
    let mut store = open();
    let one = add_record(&mut store, 10, 5.71, [0.1; 5]);
    let two = add_record(&mut store, 20, 5.79, [0.2; 5]);
    store
        .write_normalized(1, &vec![one, two], &vec![57, 57], &vec![sums(0.3)])
        .unwrap();
    let check = |main: Option<IndexLabels>, delta: Option<IndexLabels>| {
        validate_index_coverage(&store, 1, &main, &delta)
    };
    assert_eq!(
        check(None, None),
        Err(IndexError::IndexMissing { delta: false })
    );
    assert_eq!(
        check(labels(1, &[10, 20]), None),
        Err(IndexError::IndexMissing { delta: true })
    );
    assert_eq!(
        check(labels(2, &[10, 20]), labels(1, &[])),
        Err(IndexError::DatasetVersion)
    );
    assert_eq!(
        check(labels(1, &[10, 20]), labels(3, &[])),
        Err(IndexError::DatasetVersion)
    );
    assert_eq!(
        check(labels(1, &[10, 20]), labels(1, &[10])),
        Err(IndexError::DuplicateBeatmap { beatmap_id: 10 })
    );
    assert_eq!(
        check(labels(1, &[20, 20]), None),
        Err(IndexError::DuplicateBeatmap { beatmap_id: 20 })
    );
    assert_eq!(
        check(labels(1, &[10]), labels(1, &[])),
        Err(IndexError::Coverage)
    );
    assert_eq!(
        check(labels(1, &[10, 20]), labels(1, &[30])),
        Err(IndexError::Coverage)
    );
    assert_eq!(check(labels(1, &[20, 10]), labels(1, &[])), Ok(()));
}

#[test]
fn index_errors_say_what_happened() {
    let texts: Vec<String> = [
        IndexError::MainMissing,
        IndexError::IndexMissing { delta: true },
        IndexError::DatasetVersion,
        IndexError::QueryVersion,
        IndexError::DuplicateBeatmap { beatmap_id: 7 },
        IndexError::Coverage,
        IndexError::LabelOrder,
        IndexError::ModProfile,
    ]
    .iter()
    .map(|error| error.message("data"))
    .collect();
    assert_eq!(
        texts,
        vec![
            "main index is missing; run index build first",
            "index is missing: data/indexes/difficulty-delta.hnsw",
            "index normalization version does not match dataset",
            "index normalization version does not match query",
            "beatmap 7 occurs in both main/delta index data",
            "main/delta index records do not match active normalized records",
            "HNSW label order is not contiguous",
            "only NoMod (mod_profile=0) is supported",
        ]
    );
}

#[test]
fn labels_follow_the_positions_of_the_graph() {
    let mut list = Vec::new();
    assert_eq!(add_label(&mut list, 0, 10), Ok(()));
    assert_eq!(add_label(&mut list, 2, 30), Err(IndexError::LabelOrder));
    assert_eq!(add_label(&mut list, 1, 20), Ok(()));
    assert_eq!(list, vec![10, 20]);
    assert_eq!(labels_at(&list, &vec![1, usize::MAX, 0]), vec![20, 10]);
    assert_eq!(search_extent(256, 1000), (256, 128));
    assert_eq!(search_extent(256, 3), (3, 128));
    assert_eq!(search_extent(0, 3), (1, 64));
    assert_eq!(search_extent(100, 3), (3, 100));
}

#[test]
fn filters_are_inclusive_and_refuse_not_a_number() {
    let base = BaseFeatures {
        ar: f(9.0),
        bpm: f(180.0),
        ..BaseFeatures::default()
    };
    let none = QueryFilters::default();
    assert!(matches_filters(&base, 5, &none));
    let edge = QueryFilters {
        min_ar: Some(f(9.0)),
        max_ar: Some(f(9.0)),
        min_bpm: Some(f(180.0)),
        max_bpm: Some(f(180.0)),
        beatmapset_id: Some(5),
    };
    assert!(matches_filters(&base, 5, &edge));
    assert!(!matches_filters(&base, 6, &edge));
    let high = QueryFilters {
        min_ar: Some(f(9.1)),
        ..none
    };
    assert!(!matches_filters(&base, 5, &high));
    let low = QueryFilters {
        max_bpm: Some(f(179.9)),
        ..none
    };
    assert!(!matches_filters(&base, 5, &low));
    let odd = QueryFilters {
        min_bpm: Some(f(f32::NAN)),
        ..none
    };
    assert!(!matches_filters(&base, 5, &odd));
}

fn distance(value: f32) -> SimilarityDistance {
    SimilarityDistance {
        final_distance: f(value),
        difficulty_distance: f(value),
        base_distance: f(0.0),
    }
}

#[test]
fn queries_rank_other_beatmaps_by_distance_and_identifier() {
    let mut store = open();
    let mut records = Vec::new();
    for id in [10, 20, 30, 40] {
        records.push(add_record(&mut store, id, 5.75, [0.5; 5]));
    }
    store
        .write_normalized(1, &records, &vec![57; 4], &vec![sums(2.0)])
        .unwrap();
    assert!(matches!(
        SimilarityStore::open("data".to_owned(), 1, false),
        Err(IndexError::MainMissing)
    ));
    let index = SimilarityStore::open("data".to_owned(), 1, true).ok().unwrap();
    assert_eq!(index.root(), "data");
    assert_eq!(index.check_version(1), Ok(()));
    assert_eq!(index.check_version(2), Err(IndexError::QueryVersion));
    let query = SimilarityQuery {
        beatmap_id: 10,
        result_limit: 2,
        ..SimilarityQuery::default()
    };
    assert_eq!(query.candidate_limit, 256);
    let ids = vec![40, 10, 30, 20, 40];
    let candidates = index.candidates(&store, &query, &ids).unwrap();
    let found: Vec<u64> = candidates
        .iter()
        .map(|candidate| candidate.beatmap_id)
        .collect();
    assert_eq!(found, vec![20, 30, 40]);
    let distances = vec![distance(0.5), distance(0.25), distance(0.25)];
    let results = index.query(&store, &query, &ids, &distances).unwrap();
    let ranked: Vec<u64> = results.iter().map(|result| result.beatmap_id).collect();
    assert_eq!(ranked, vec![30, 40]);
    assert_eq!(results[0].final_distance, f(0.25));
    assert_eq!(results[0].beatmapset_id, 3);

    let modded = SimilarityQuery {
        mod_profile: 1,
        ..query
    };
    assert_eq!(
        index.query(&store, &modded, &ids, &Vec::new()),
        Err(IndexError::ModProfile)
    );
    let unknown = SimilarityQuery {
        beatmap_id: 99,
        ..query
    };
    assert!(index.target(&store, &unknown).is_err());
    assert!(index.candidates(&store, &query, &vec![99]).is_err());
    let one_set = SimilarityQuery {
        filters: QueryFilters {
            beatmapset_id: Some(4),
            ..QueryFilters::default()
        },
        ..query
    };
    let filtered = index.candidates(&store, &one_set, &ids).unwrap();
    assert_eq!(filtered.len(), 1);
    assert_eq!(filtered[0].beatmap_id, 40);
}

#[test]
fn ranking_orders_zeros_and_not_a_number_totally() {
    let candidate = |id: u64| Candidate {
        beatmap_id: id,
        record: BeatmapFeatureRecord {
            beatmap_id: id,
            ..BeatmapFeatureRecord::default()
        },
    };
    let results = rank_candidates(
        &vec![candidate(1), candidate(2), candidate(3), candidate(4)],
        &vec![
            distance(f32::NAN),
            distance(0.0),
            distance(-0.0),
            distance(1.0),
        ],
        10,
    );
    let ids: Vec<u64> = results.iter().map(|result| result.beatmap_id).collect();
    assert_eq!(ids, vec![3, 2, 4, 1]);
}
