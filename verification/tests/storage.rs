use std::collections::BTreeMap;

use osu_difficulty_lab::archive::{ArchiveKind, ImportError, PackImportReport};
use osu_difficulty_lab::checksum::{
    checksum_matches, checksum_of, checksum_path, digest_matches,
};
use osu_difficulty_lab::float_bits::{F32, F64};
use osu_difficulty_lab::normalizer::{
    fit_normalizer, normalized_record, normalizer_file, rank, FitError, Normalizer, Rank,
};
use osu_difficulty_lab::normalizer_file::{decode_normalizer, encode_normalizer};
use osu_difficulty_lab::publish::SectionSums;
use osu_difficulty_lab::records::{
    decode_normalized, decode_raw, encode_normalized, encode_raw, header, raw_header,
    read_normalized_record, read_raw_record, NORMALIZED_RECORD_SIZE, RAW_RECORD_SIZE,
};
use osu_difficulty_lab::store::{
    analysis_key, Appended, BeatmapRow, FeatureStore, StoreError, Tables, VersionRow,
};
use osu_difficulty_lab::transaction::{
    import_pack, store_beatmaps, AnalysedBeatmap, PackBeatmap,
};
use osu_difficulty_lab::types::{
    BaseFeatures, BeatmapFeatureRecord, BeatmapMetadata, DifficultyVector, DimensionSums,
    RawFeatureRecord, StarSectionStats, ANALYZER_VERSION, ROSU_PP_VERSION,
};

fn f(value: f32) -> F32 {
    F32::from_bits(value.to_bits())
}

fn d(value: f64) -> F64 {
    F64::from_bits(value.to_bits())
}

fn float(value: F64) -> f64 {
    f64::from_bits(value.bits)
}

fn section(stars: f64) -> i64 {
    (stars / 0.1 + 1e-6).floor() as i64
}

fn metadata(id: u64, stars: f64) -> BeatmapMetadata {
    BeatmapMetadata {
        beatmap_id: id,
        beatmapset_id: id / 10,
        checksum: format!("checksum-{id}"),
        artist: "artist".into(),
        title: "title".into(),
        version: "version".into(),
        creator: "creator".into(),
        online_url: format!("https://osu.ppy.sh/b/{id}"),
        star_rating: d(stars),
    }
}

fn raw(id: u64, analyzer_version: u32) -> RawFeatureRecord {
    RawFeatureRecord {
        beatmap_id: id,
        beatmapset_id: id / 10,
        analyzer_version,
        mod_profile: 0,
        ..RawFeatureRecord::default()
    }
}

fn normalized(id: u64, analyzer: u32, version: u32, values: [f32; 5]) -> BeatmapFeatureRecord {
    normalized_with_base(id, analyzer, version, values, [0.0; 3])
}

fn normalized_with_base(
    id: u64,
    analyzer_version: u32,
    normalization_version: u32,
    values: [f32; 5],
    base_values: [f32; 3],
) -> BeatmapFeatureRecord {
    let [ar, cs, od] = base_values;
    BeatmapFeatureRecord {
        beatmap_id: id,
        beatmapset_id: id / 10,
        difficulty: DifficultyVector::from_array(values.map(f)),
        base: BaseFeatures {
            ar: f(ar),
            cs: f(cs),
            od: f(od),
            ..BaseFeatures::default()
        },
        analyzer_version,
        normalization_version,
        mod_profile: 0,
        ..BeatmapFeatureRecord::default()
    }
}

fn open() -> FeatureStore {
    FeatureStore::open("data".to_owned(), Tables::new())
}

fn append(store: &mut FeatureStore, id: u64, stars: f64, analyzer: u32) -> Appended {
    store
        .append_raw(&metadata(id, stars), &raw(id, analyzer), section(stars))
        .unwrap()
}

fn sections_of(store: &FeatureStore, records: &[BeatmapFeatureRecord]) -> Vec<i64> {
    records
        .iter()
        .map(|record| {
            store
                .stored_rating(record)
                .map_or(0, |rating| section(float(rating)))
        })
        .collect()
}

fn sums_of(records: &[&BeatmapFeatureRecord]) -> SectionSums {
    let mut sums = [0.0_f64; 5];
    let mut squares = [0.0_f64; 5];
    let mut base = [0.0_f64; 3];
    let mut base_squares = [0.0_f64; 3];
    for record in records {
        for (index, value) in record.difficulty.as_array().into_iter().enumerate() {
            let value = f32::from_bits(value.bits) as f64;
            sums[index] += value;
            squares[index] += value * value;
        }
        for (index, value) in [record.base.ar, record.base.cs, record.base.od]
            .into_iter()
            .enumerate()
        {
            let value = f32::from_bits(value.bits) as f64;
            base[index] += value;
            base_squares[index] += value * value;
        }
    }
    let dimensions = |values: [f64; 5]| DimensionSums {
        aim: d(values[0]),
        speed: d(values[1]),
        reading: d(values[2]),
        slider: d(values[3]),
        overlap: d(values[4]),
    };
    SectionSums {
        sums: dimensions(sums),
        sum_squares: dimensions(squares),
        ar_sum: d(base[0]),
        cs_sum: d(base[1]),
        od_sum: d(base[2]),
        ar_sum_squares: d(base_squares[0]),
        cs_sum_squares: d(base_squares[1]),
        od_sum_squares: d(base_squares[2]),
    }
}

fn group_sums(
    store: &FeatureStore,
    version: u32,
    records: &Vec<BeatmapFeatureRecord>,
    sections: &Vec<i64>,
) -> Result<Vec<SectionSums>, StoreError> {
    Ok(store
        .aggregate_star_section_stats(version, records, sections)?
        .iter()
        .map(|group| {
            let members: Vec<&BeatmapFeatureRecord> =
                group.members.iter().map(|at| &records[*at]).collect();
            sums_of(&members)
        })
        .collect())
}

fn publish(
    store: &mut FeatureStore,
    version: u32,
    records: &[BeatmapFeatureRecord],
) -> Result<Vec<StarSectionStats>, StoreError> {
    let records = records.to_vec();
    let sections = sections_of(store, &records);
    let sums = group_sums(store, version, &records, &sections).unwrap_or_default();
    store.write_normalized(version, &records, &sections, &sums)
}

fn validate(store: &FeatureStore, version: u32) -> Result<(), StoreError> {
    let records = store.normalized_records(version).unwrap_or_default();
    let sections = sections_of(store, &records);
    let sums = group_sums(store, version, &records, &sections).unwrap_or_default();
    store.validate_star_section_stats(version, &sections, &sums)
}

#[test]
fn schema_migration_invalidates_legacy_stats_until_rebuilt() {
    let mut tables = Tables::new();
    tables.stats.push(osu_difficulty_lab::store::StatsRow {
        stats: StarSectionStats {
            star_section: 42,
            analyzer_version: 3,
            normalization_version: 1,
            sample_count: 1,
            ..StarSectionStats::default()
        },
        complete: false,
    });
    let mut store = FeatureStore::open("data".to_owned(), tables);
    assert_eq!(store.star_section_stats(1), Err(StoreError::IncompleteStats));
    append(&mut store, 10, 4.2, ANALYZER_VERSION);
    publish(
        &mut store,
        1,
        &[normalized_with_base(
            10,
            ANALYZER_VERSION,
            1,
            [0.25; 5],
            [8.0, 4.0, 7.0],
        )],
    )
    .unwrap();
    validate(&store, 1).unwrap();
}

#[test]
fn normalized_binary_record_layout_remains_compatible() {
    let bytes = encode_normalized(&BeatmapFeatureRecord::default()).unwrap();
    assert_eq!(bytes.len(), 124);
    assert_eq!(NORMALIZED_RECORD_SIZE, 124);
    assert_eq!(RAW_RECORD_SIZE, 116);
    assert_eq!(encode_raw(&RawFeatureRecord::default()).unwrap().len(), 116);
}

#[test]
fn records_read_back_as_they_were_written() {
    let mut record = normalized_with_base(
        0x0102_0304_0506_0708,
        4,
        7,
        [0.1, 0.2, 0.3, 0.4, 0.5],
        [8.0, 4.0, 7.0],
    );
    record.flags = 9;
    let mut bytes = encode_normalized(&record).unwrap();
    assert_eq!(bytes[..8], [8, 7, 6, 5, 4, 3, 2, 1]);
    assert_eq!(bytes[16..20], 0.1_f32.to_le_bytes());
    assert_eq!(bytes[120..124], [9, 0, 0, 0]);
    bytes.push(0xff);
    assert_eq!(decode_normalized(&bytes).unwrap(), record);
    assert!(decode_normalized(&bytes[..123]).is_err());
    let stored = raw(77, 4);
    let bytes = encode_raw(&stored).unwrap();
    assert_eq!(decode_raw(&bytes).unwrap(), stored);
    assert!(decode_raw(&bytes[..115]).is_err());
}

#[test]
fn headers_start_with_their_magic() {
    let bytes = header(b"ODLRAW\0");
    assert_eq!(bytes.len(), 32);
    assert_eq!(&bytes[..7], b"ODLRAW\0");
}

#[test]
fn statistics_are_exact_idempotent_and_version_separated() {
    let mut store = open();
    append(&mut store, 10, 5.71, ANALYZER_VERSION);
    append(&mut store, 20, 5.79, ANALYZER_VERSION);
    append(&mut store, 30, 5.75, ANALYZER_VERSION + 1);
    let first = normalized_with_base(
        10,
        ANALYZER_VERSION,
        7,
        [0.1, 0.2, 0.3, 0.4, 0.5],
        [8.0, 4.0, 7.0],
    );
    let second = normalized_with_base(
        20,
        ANALYZER_VERSION,
        7,
        [0.2, 0.3, 0.4, 0.5, 0.6],
        [9.0, 4.5, 8.0],
    );
    let other_analyzer =
        normalized_with_base(30, ANALYZER_VERSION + 1, 7, [0.9; 5], [9.5, 5.0, 9.0]);

    let records = vec![first, second, other_analyzer];
    let sections = sections_of(&store, &records);
    assert_eq!(sections, vec![57, 57, 57]);
    let grouped = store
        .aggregate_star_section_stats(7, &records, &sections)
        .unwrap();
    let sums = group_sums(&store, 7, &records, &sections).unwrap();
    assert_eq!(grouped.len(), 2);
    assert_eq!(grouped[0].analyzer_version, ANALYZER_VERSION);
    assert_eq!(grouped[0].members, vec![0, 1]);
    let expected_sums = [0.3, 0.5, 0.7, 0.9, 1.1];
    let expected_squares = [0.05, 0.13, 0.25, 0.41, 0.61];
    let actual = |values: DimensionSums| {
        [
            float(values.aim),
            float(values.speed),
            float(values.reading),
            float(values.slider),
            float(values.overlap),
        ]
    };
    for index in 0..5 {
        assert!((actual(sums[0].sums)[index] - expected_sums[index]).abs() < 1e-6);
        assert!((actual(sums[0].sum_squares)[index] - expected_squares[index]).abs() < 1e-6);
    }
    assert_eq!(float(sums[0].ar_sum), 17.0);
    assert_eq!(float(sums[0].cs_sum), 8.5);
    assert_eq!(float(sums[0].od_sum), 15.0);
    assert_eq!(float(sums[0].ar_sum_squares), 145.0);
    assert_eq!(float(sums[0].cs_sum_squares), 36.25);
    assert_eq!(float(sums[0].od_sum_squares), 113.0);
    assert_eq!(grouped[1].analyzer_version, ANALYZER_VERSION + 1);
    assert_eq!(grouped[1].members.len(), 1);

    publish(&mut store, 7, &[first, second]).unwrap();
    let once = store.star_section_stats(7).unwrap();
    assert_eq!(once[0].sample_count, 2);
    publish(&mut store, 7, &[first, second]).unwrap();
    assert_eq!(store.star_section_stats(7).unwrap(), once);
    validate(&store, 7).unwrap();
}

#[test]
fn records_may_be_published_in_any_order_and_again() {
    let mut store = open();
    append(&mut store, 10, 5.71, ANALYZER_VERSION);
    append(&mut store, 20, 3.2, ANALYZER_VERSION);
    append(&mut store, 30, 5.75, ANALYZER_VERSION);
    let records = [
        normalized(30, ANALYZER_VERSION, 7, [0.25; 5]),
        normalized(10, ANALYZER_VERSION, 7, [0.5; 5]),
        normalized(20, ANALYZER_VERSION, 7, [0.75; 5]),
    ];
    let written = publish(&mut store, 7, &records).unwrap();
    assert_eq!(written.len(), 2);
    assert_eq!(written[0].star_section, 32);
    assert_eq!(written[0].sample_count, 1);
    assert_eq!(written[1].star_section, 57);
    assert_eq!(written[1].sample_count, 2);
    validate(&store, 7).unwrap();
    let read = store.normalized_records(7).unwrap();
    assert_eq!(read, vec![records[1], records[2], records[0]]);
    let once = store.star_section_stats(7).unwrap();
    publish(&mut store, 7, &records).unwrap();
    assert_eq!(store.star_section_stats(7).unwrap(), once);
    assert_eq!(store.normalized_records(7).unwrap(), read);
    validate(&store, 7).unwrap();
}

#[test]
fn invalid_records_do_not_replace_existing_statistics() {
    let mut store = open();
    append(&mut store, 10, 4.2, ANALYZER_VERSION);
    let valid = normalized(10, ANALYZER_VERSION, 1, [0.25; 5]);
    publish(&mut store, 1, &[valid]).unwrap();
    let stats = store.star_section_stats(1).unwrap();
    let file = store.tables.normalized[&1].clone();

    let invalid = normalized(999, ANALYZER_VERSION, 1, [0.5; 5]);
    assert!(publish(&mut store, 1, &[valid, invalid]).is_err());
    assert_eq!(store.star_section_stats(1).unwrap(), stats);
    assert_eq!(store.tables.normalized[&1], file);
}

#[test]
fn non_finite_base_parameters_do_not_replace_existing_statistics() {
    let mut store = open();
    append(&mut store, 10, 4.2, ANALYZER_VERSION);
    let valid = normalized_with_base(10, ANALYZER_VERSION, 1, [0.25; 5], [8.0, 4.0, 7.0]);
    publish(&mut store, 1, &[valid]).unwrap();
    let stats = store.star_section_stats(1).unwrap();
    let file = store.tables.normalized[&1].clone();

    let invalid = normalized_with_base(10, ANALYZER_VERSION, 1, [0.25; 5], [f32::NAN, 4.0, 7.0]);
    assert_eq!(
        publish(&mut store, 1, &[invalid]),
        Err(StoreError::NonFiniteBase { beatmap_id: 10 })
    );
    assert_eq!(store.star_section_stats(1).unwrap(), stats);
    assert_eq!(store.tables.normalized[&1], file);
}

#[test]
fn new_raw_data_invalidates_published_statistics() {
    let mut store = open();
    append(&mut store, 10, 4.2, ANALYZER_VERSION);
    publish(
        &mut store,
        1,
        &[normalized(10, ANALYZER_VERSION, 1, [0.25; 5])],
    )
    .unwrap();
    assert!(!store.star_section_stats(1).unwrap().is_empty());

    append(&mut store, 20, 4.3, ANALYZER_VERSION);
    assert!(store.star_section_stats(1).unwrap().is_empty());
    assert_eq!(validate(&store, 1), Err(StoreError::StatsMismatch));
}

#[test]
fn missing_legacy_stars_fail_dataset_generation() {
    let mut store = open();
    append(&mut store, 10, 4.2, ANALYZER_VERSION);
    let mut row: BeatmapRow = store.tables.beatmaps[&10].clone();
    row.star_rating = None;
    row.star_section = None;
    store.tables.beatmaps.insert(10, row);
    let error = store.raw_records().unwrap_err().message();
    assert!(error.contains("run reanalyze"));
}

#[test]
fn dependency_snapshot_change_requires_explicit_reanalysis() {
    let mut store = open();
    append(&mut store, 10, 4.2, ANALYZER_VERSION);
    let version = ANALYZER_VERSION as u64;
    let mut row: VersionRow = store.tables.versions[&version].clone();
    assert_eq!(row.rosu_pp_version, ROSU_PP_VERSION);
    row.rosu_pp_version = "4.0.1".to_owned();
    store.tables.versions.insert(version, row);

    assert!(!store.algorithm_snapshot_matches());
    assert!(store
        .raw_records()
        .unwrap_err()
        .message()
        .contains("run reanalyze"));
    assert!(store.prepare_reanalysis(true));
    assert!(store.algorithm_snapshot_matches());
    assert_eq!(store.tables.analyses.len(), 0);
    assert!(!store.prepare_reanalysis(false));
    assert_eq!(
        append(&mut store, 10, 4.2, ANALYZER_VERSION),
        Appended::Inserted { offset: 32 + 116 }
    );
}

#[test]
fn reanalysis_is_due_while_an_index_lacks_analyses() {
    let mut store = open();
    assert!(store.prepare_reanalysis(true));
    assert!(!store.prepare_reanalysis(false));
    append(&mut store, 10, 4.2, ANALYZER_VERSION);
    assert!(!store.prepare_reanalysis(true));
}

#[test]
fn appending_again_changes_nothing() {
    let mut store = open();
    assert_eq!(
        append(&mut store, 10, 4.2, ANALYZER_VERSION),
        Appended::Inserted { offset: 32 }
    );
    assert_eq!(
        append(&mut store, 10, 4.2, ANALYZER_VERSION),
        Appended::Unchanged
    );
    assert_eq!(
        append(&mut store, 10, 5.2, ANALYZER_VERSION),
        Appended::Refreshed
    );
    assert_eq!(store.raw_for_id(10), Ok(raw(10, ANALYZER_VERSION)));
    assert!(store
        .current_analysis_matches(10, "checksum-10")
        .unwrap());
    assert!(!store.current_analysis_matches(10, "other").unwrap());
    assert_eq!(store.metadata_for(10).unwrap().title, "title");
    assert!(store.metadata_for(11).is_err());
    assert_eq!(
        analysis_key(10, ANALYZER_VERSION),
        *store.tables.analyses.keys().next().unwrap()
    );
}

#[test]
fn appending_refuses_mods_and_bad_ratings() {
    let mut store = open();
    let mut modded = raw(10, ANALYZER_VERSION);
    modded.mod_profile = 1;
    assert_eq!(
        store.append_raw(&metadata(10, 4.2), &modded, 42),
        Err(StoreError::ModProfile)
    );
    for stars in [-0.5, f64::NAN, f64::INFINITY] {
        assert_eq!(
            store.append_raw(&metadata(10, stars), &raw(10, ANALYZER_VERSION), 0),
            Err(StoreError::StarRating)
        );
    }
    assert_eq!(store.tables.raw, raw_header());
    assert_eq!(store.raw_records(), Ok(Vec::new()));
}

#[test]
fn publishing_refuses_what_does_not_fit() {
    let mut store = open();
    append(&mut store, 10, 4.2, ANALYZER_VERSION);
    let good = normalized(10, ANALYZER_VERSION, 1, [0.25; 5]);
    assert_eq!(publish(&mut store, 1, &[]), Err(StoreError::EmptyDataset));
    assert_eq!(
        publish(&mut store, 1, &[good, good]),
        Err(StoreError::DuplicateRecord { beatmap_id: 10 })
    );
    assert_eq!(
        publish(&mut store, 2, &[good]),
        Err(StoreError::RecordVersion {
            beatmap_id: 10,
            declared: 1,
            expected: 2
        })
    );
    let wild = normalized(10, ANALYZER_VERSION, 1, [f32::INFINITY; 5]);
    assert_eq!(
        publish(&mut store, 1, &[wild]),
        Err(StoreError::NonFiniteDifficulty { beatmap_id: 10 })
    );
    let mut modded = good;
    modded.mod_profile = 2;
    assert_eq!(
        publish(&mut store, 1, &[modded]),
        Err(StoreError::NormalizedModProfile)
    );
    let unknown = normalized(11, ANALYZER_VERSION, 1, [0.25; 5]);
    assert_eq!(
        publish(&mut store, 1, &[unknown]),
        Err(StoreError::MissingStarMetadata { beatmap_id: 11 })
    );
    publish(&mut store, 1, &[good]).unwrap();
    assert_eq!(store.normalized_records(1), Ok(vec![good]));
    assert_eq!(store.normalized_for_id(1, 10), Ok(good));
    assert!(store.normalized_for_id(1, 99).is_err());
    assert!(store.raw_for_id(99).is_err());
}

#[test]
fn packs_keep_the_source_that_was_recorded_first() {
    let mut store = open();
    store.mark_pack("S1", "first", "queued", None);
    store.mark_pack("S1", "second", "failed", Some("why".to_owned()));
    let row = &store.tables.packs[0];
    assert_eq!(row.source_url, "first");
    assert_eq!(row.status, "failed");
    assert_eq!(row.last_error.as_deref(), Some("why"));
    assert!(!store.pack_is_complete("S1"));
    store.mark_pack("S1", "third", "complete", None);
    assert!(store.pack_is_complete("S1"));
    assert_eq!(store.tables.packs.len(), 1);
    assert_eq!(store.root(), "data");
}

#[test]
fn checksums_are_those_of_the_standard() {
    let abc = "ba7816bf8f01cfea414140de5dae2223b00361a396177a9cb410ff61f20015ad";
    assert_eq!(checksum_of(b"abc"), abc);
    assert!(checksum_matches(b"abc", &format!(" {abc}\n")));
    assert!(!checksum_matches(b"abd", abc));
    assert!(digest_matches(&[0x01, 0xab], "01ab"));
    assert!(!digest_matches(&[0x01, 0xab], "01AB"));
    assert_eq!(checksum_path("x/y.hnsw"), "x/y.hnsw.sha256");
}

#[test]
fn normalizers_rank_by_distinct_values() {
    let mut store = open();
    assert_eq!(fit_normalizer(&store, 0).err(), Some(FitError::ZeroVersion));
    assert_eq!(fit_normalizer(&store, 1).err(), Some(FitError::NoRecords));
    for (id, aim) in [(10, 3.0), (20, 1.0), (30, 3.0), (40, 2.0)] {
        let mut record = raw(id, ANALYZER_VERSION);
        record.raw_difficulty = DifficultyVector::from_array([aim, 1.0, 1.0, 1.0, 1.0].map(f));
        store
            .append_raw(&metadata(id, 4.2), &record, 42)
            .unwrap();
    }
    let normalizer: Normalizer = fit_normalizer(&store, 1).unwrap();
    assert_eq!(normalizer.quantiles[0], vec![f(1.0), f(2.0), f(3.0)]);
    assert_eq!(normalizer.quantiles[1], vec![f(1.0)]);
    assert_eq!(
        rank(&normalizer.quantiles[0], f(2.5)),
        Rank {
            position: 1,
            last: 2
        }
    );
    assert_eq!(rank(&normalizer.quantiles[0], f(0.5)).position, 0);
    let ranks = normalizer.transform(store.raw_for_id(30).unwrap().raw_difficulty);
    assert_eq!(
        ranks[0],
        Rank {
            position: 2,
            last: 2
        }
    );
    let again: Normalizer = fit_normalizer(&store, 1).unwrap();
    assert_eq!(again.quantiles, normalizer.quantiles);
    let record = normalized_record(
        &raw(10, ANALYZER_VERSION),
        DifficultyVector::from_array([1.0; 5].map(f)),
        3,
    );
    assert_eq!(record.normalization_version, 3);
    assert_eq!(record.flags, 0);
    assert_eq!(normalizer_file(3), "v3.bin");
    assert_eq!(
        FitError::NoRecords.message(),
        "cannot fit a normalizer without raw feature records"
    );
}

#[test]
fn saved_normalizers_load_back() {
    let normalizer = Normalizer {
        version: 7,
        quantiles: [
            vec![f(0.5), f(-0.0)],
            Vec::new(),
            vec![f(1.0)],
            vec![f(f32::NAN)],
            vec![f(2.0), f(3.0), f(4.0)],
        ],
    };
    let mut bytes = encode_normalizer(&normalizer).unwrap();
    assert_eq!(bytes.len(), 4 + 5 * 8 + 7 * 4);
    assert_eq!(bytes[..12], [7, 0, 0, 0, 2, 0, 0, 0, 0, 0, 0, 0]);
    assert_eq!(bytes[12..16], 0.5_f32.to_le_bytes());
    assert!(decode_normalizer(&bytes[..bytes.len() - 1]).is_err());
    bytes.push(1);
    let loaded = decode_normalizer(&bytes).ok().unwrap();
    assert_eq!(loaded.version, 7);
    assert_eq!(loaded.quantiles, normalizer.quantiles);
}

#[test]
fn values_are_ordered_as_numbers_and_by_their_bits() {
    assert!(f(-0.0).at_most(&f(0.0)) && f(0.0).at_most(&f(-0.0)));
    assert!(f(-0.0).total_at_most(&f(0.0)) && !f(0.0).total_at_most(&f(-0.0)));
    assert!(!f(f32::NAN).at_most(&f(1.0)) && !f(1.0).at_most(&f(f32::NAN)));
    assert!(f(1.0).total_at_most(&f(f32::NAN)));
    assert!(f(-2.0).at_most(&f(-1.0)) && !f(-1.0).at_most(&f(-2.0)));
    assert!(f(1e30).is_finite() && !f(f32::INFINITY).is_finite());
    assert!(d(0.0).equals(&d(-0.0)) && !d(f64::NAN).equals(&d(f64::NAN)));
    assert!(d(-0.0).is_at_least_zero() && !d(-1.0).is_at_least_zero());
    let stored: BTreeMap<u64, u8> = BTreeMap::new();
    assert!(osu_difficulty_lab::ordered::keys64(&stored).is_empty());
}

#[test]
fn records_are_read_wherever_their_bytes_stand() {
    let mut store = open();
    append(&mut store, 10, 4.2, ANALYZER_VERSION);
    store.tables.raw.extend_from_slice(b"torn");
    assert_eq!(
        append(&mut store, 20, 4.2, ANALYZER_VERSION),
        Appended::Inserted {
            offset: 32 + 116 + 4
        }
    );
    assert_eq!(
        store.raw_records(),
        Ok(vec![raw(10, ANALYZER_VERSION), raw(20, ANALYZER_VERSION)])
    );
    let key = analysis_key(20, ANALYZER_VERSION);
    let mut row = store.tables.analyses[&key];
    row.record_offset += 1;
    store.tables.analyses.insert(key, row);
    assert_eq!(
        store.raw_for_id(20),
        Err(StoreError::MissingRecord {
            offset: row.record_offset
        })
    );
    let file = &store.tables.raw;
    assert_eq!(read_raw_record(file, 32), Some(raw(10, ANALYZER_VERSION)));
    assert_eq!(read_raw_record(file, u64::MAX), None);
    assert!(read_raw_record(file, 0).is_some());
    assert_eq!(read_normalized_record(&Vec::new(), 0), None);
}

fn analysed(id: u64, stars: f64) -> PackBeatmap {
    PackBeatmap::Analysed(AnalysedBeatmap {
        metadata: metadata(id, stars),
        record: raw(id, ANALYZER_VERSION),
        section: section(stars),
    })
}

#[test]
fn a_pack_is_imported_as_a_whole_or_not_at_all() {
    let mut store = open();
    append(&mut store, 5, 4.2, ANALYZER_VERSION);
    let before = store.raw_records();
    let file = store.tables.raw.clone();
    let broken = vec![analysed(10, 4.2), PackBeatmap::Broken, analysed(20, 4.2)];
    assert_eq!(
        import_pack(&mut store, ArchiveKind::Zip, &broken, 0),
        Err(ImportError::Failures {
            failed: 1,
            processed: 3
        })
    );
    let refused = vec![analysed(10, 4.2), analysed(20, -1.0)];
    assert_eq!(
        import_pack(&mut store, ArchiveKind::SevenZ, &refused, 2),
        Err(ImportError::Failures {
            failed: 3,
            processed: 2
        })
    );
    assert_eq!(
        import_pack(&mut store, ArchiveKind::SevenZ, &Vec::new(), 1),
        Err(ImportError::NoBeatmaps { seven_z: true })
    );
    assert_eq!(
        import_pack(&mut store, ArchiveKind::Rar, &refused, 0),
        Err(ImportError::Rar)
    );
    assert_eq!(store.raw_records(), before);
    assert_eq!(store.tables.raw, file);
    let good = vec![
        analysed(10, 4.2),
        PackBeatmap::OtherMode,
        analysed(5, 4.2),
        analysed(20, 4.2),
    ];
    assert_eq!(
        import_pack(&mut store, ArchiveKind::Zip, &good, 0),
        Ok(PackImportReport {
            processed: 4,
            inserted: 2,
            skipped: 2,
            failed: 0
        })
    );
    let ids: Vec<u64> = store
        .raw_records()
        .unwrap()
        .iter()
        .map(|record| record.beatmap_id)
        .collect();
    assert_eq!(ids, vec![5, 10, 20]);
}

#[test]
fn beatmaps_of_an_archive_are_stored_one_by_one() {
    let mut store = open();
    let mixed = vec![analysed(10, 4.2), PackBeatmap::Broken, analysed(20, 4.2)];
    assert_eq!(
        store_beatmaps(&mut store, &mixed),
        PackImportReport {
            processed: 3,
            inserted: 2,
            skipped: 0,
            failed: 1
        }
    );
    assert_eq!(store.raw_records().unwrap().len(), 2);
}
