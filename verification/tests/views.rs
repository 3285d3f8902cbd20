use osu_difficulty_lab::archive::{BeatmapOutcome, PackImportReport};
use osu_difficulty_lab::display::{
    import_line, is_failure, report_line, should_draw, DownloadBatchDisplay, ReanalysisTally,
};
use osu_difficulty_lab::export::{
    column_names, export_csv, export_mania_csv, export_mania_parquet, export_mania_values,
    export_parquet, export_values, mania_column_names, Column, ColumnValues, ManiaRow,
};
use osu_difficulty_lab::float_bits::{F32, F64};
use osu_difficulty_lab::mania::{ManiaDifficultyVector, ManiaFeatureRecord, ManiaModeFamily};
use osu_difficulty_lab::packs::{report_of, DownloadOutcome, PackDownloadEvent};
use osu_difficulty_lab::sorting::{order_of, RankKey};
use osu_difficulty_lab::text::{
    chars_of, lines_of, lower_all, parse_number, push_decimal, same_ignoring_case, same_text,
    split_at_char, string_of, trim,
};
use osu_difficulty_lab::transfer::DownloadProgress;
use osu_difficulty_lab::types::{BaseFeatures, BeatmapFeatureRecord, DifficultyVector};

fn f(value: f32) -> F32 {
    F32::from_bits(value.to_bits())
}

fn written(values: &[F32]) -> Vec<String> {
    values
        .iter()
        .map(|value| f32::from_bits(value.bits).to_string())
        .collect()
}

fn progress(bytes: u64, total: Option<u64>) -> DownloadProgress {
    DownloadProgress {
        attempt: 1,
        downloaded_bytes: bytes,
        total_bytes: total,
        bytes_per_second: F64::from_bits(1.5_f64.to_bits()),
    }
}

#[test]
fn displays_follow_the_events_of_a_batch() {
    let mut display = DownloadBatchDisplay::new(3);
    for id in ["S1", "S2", "S1"] {
        display.handle(&PackDownloadEvent::Started {
            pack_id: id.to_owned(),
        });
    }
    assert_eq!(display.active, vec!["S1", "S2"]);
    for bytes in [10, 30] {
        display.handle(&PackDownloadEvent::Progress {
            pack_id: "S1".to_owned(),
            progress: progress(bytes, None),
        });
    }
    display.handle(&PackDownloadEvent::Progress {
        pack_id: "S3".to_owned(),
        progress: progress(5, None),
    });
    assert_eq!(display.staged_bytes(), 35);
    assert_eq!(
        display.summary("0.0", "1.50"),
        "download progress: 0/3 finished, 3 active, 0.0 MiB staged, 1.50 MiB/s"
    );
    display.handle(&PackDownloadEvent::Finished(report_of(
        "S1".to_owned(),
        DownloadOutcome::Downloaded,
    )));
    assert_eq!(display.completed, 1);
    assert_eq!(display.completed_bytes, 30);
    assert_eq!(display.staged_bytes(), 35);
    assert_eq!(display.active, vec!["S2", "S3"]);
    display.handle(&PackDownloadEvent::Finished(report_of(
        "S9".to_owned(),
        DownloadOutcome::NotStandard,
    )));
    assert_eq!(display.completed, 2);
    assert_eq!(display.completed_bytes, 30);
}

#[test]
fn reports_are_put_in_words() {
    let lines: Vec<String> = [
        DownloadOutcome::Downloaded,
        DownloadOutcome::NotStandard,
        DownloadOutcome::Failed {
            error: "reset".to_owned(),
        },
    ]
    .into_iter()
    .map(|outcome| report_line(&report_of("S1".to_owned(), outcome)))
    .collect();
    assert_eq!(
        lines,
        vec![
            "S1: downloaded",
            "S1: skipped (no osu!standard beatmaps)",
            "S1: failed: reset"
        ]
    );
    let mut report = report_of("S1".to_owned(), DownloadOutcome::NotStandard);
    assert!(!is_failure(&report));
    report.skipped = false;
    assert_eq!(report_line(&report), "S1: failed: unknown error");
    assert!(is_failure(&report));
    report.already_complete = true;
    assert_eq!(report_line(&report), "S1: already complete");
    assert_eq!(
        import_line(&PackImportReport {
            processed: 10,
            inserted: 7,
            skipped: 2,
            failed: 1
        }),
        "processed=10 inserted=7 skipped=2 failed=1"
    );
}

#[test]
fn progress_is_drawn_in_intervals_and_at_the_end() {
    assert!(should_draw(250_000_000, &progress(1, None)));
    assert!(!should_draw(249_999_999, &progress(1, None)));
    assert!(!should_draw(0, &progress(1, Some(2))));
    assert!(should_draw(0, &progress(2, Some(2))));
}

#[test]
fn reanalysis_is_shown_every_thousand_beatmaps() {
    let mut tally = ReanalysisTally::new(1002);
    let mut shown = Vec::new();
    for index in 0..1002 {
        let outcome = match index {
            0 => BeatmapOutcome::Failed,
            1 => BeatmapOutcome::Inserted,
            _ => BeatmapOutcome::Unchanged,
        };
        if tally.record(outcome) {
            shown.push(tally.done);
        }
    }
    assert_eq!(shown, vec![1000, 1002]);
    assert_eq!(
        tally.line(),
        "reanalyze progress: 1002/1002 inserted=1 skipped=1000 failed=1"
    );
    assert_eq!(
        tally.finish(),
        Err("1 of 1002 retained beatmaps failed; see reanalyze-failures.txt".to_owned())
    );
    assert_eq!(ReanalysisTally::new(0).finish(), Ok(()));
}

fn names(table: &[Column]) -> Vec<String> {
    table.iter().map(|column| column.name.clone()).collect()
}

#[test]
fn standard_exports_have_one_line_for_each_record() {
    let record = BeatmapFeatureRecord {
        beatmap_id: 10,
        beatmapset_id: 1,
        difficulty: DifficultyVector::from_array([0.5, 0.25, 1.0, 0.0, 0.75].map(f)),
        base: BaseFeatures {
            bpm: f(180.0),
            ar: f(9.5),
            object_density: f(2.5),
            ..BaseFeatures::default()
        },
        ..BeatmapFeatureRecord::default()
    };
    let records = vec![record, record];
    let rows = records
        .iter()
        .map(|record| written(&export_values(record)))
        .collect();
    assert_eq!(
        export_csv(&records, &rows),
        "beatmap_id,beatmapset_id,aim,speed,reading,slider,overlap,bpm,ar,object_density\n\
         10,1,0.5,0.25,1,0,0.75,180,9.5,2.5\n\
         10,1,0.5,0.25,1,0,0.75,180,9.5,2.5\n"
    );
    let table = export_parquet(&records);
    assert_eq!(names(&table), column_names());
    assert!(table.iter().all(|column| !column.nullable));
    assert_eq!(table[0].values, ColumnValues::Ints(vec![10, 10]));
    assert_eq!(table[1].values, ColumnValues::Ints(vec![1, 1]));
    assert_eq!(table[2].values, ColumnValues::Numbers(vec![f(0.5), f(0.5)]));
    assert_eq!(table[8].name, "ar");
    assert_eq!(table[8].values, ColumnValues::Numbers(vec![f(9.5), f(9.5)]));
    let large = BeatmapFeatureRecord {
        beatmap_id: u64::MAX,
        ..BeatmapFeatureRecord::default()
    };
    assert_eq!(
        export_parquet(&vec![large])[0].values,
        ColumnValues::Ints(vec![-1])
    );
}

#[test]
fn mania_exports_name_every_column() {
    let record = ManiaFeatureRecord {
        beatmap_id: 10,
        beatmapset_id: 1,
        key_count: 4,
        mode_family: ManiaModeFamily { code: 2 },
        difficulty_percentile: f(0.5),
        difficulty_band: 5,
        difficulty: ManiaDifficultyVector::from_array([f(0.25); 8]),
        ..ManiaFeatureRecord::default()
    };
    let values = export_mania_values(&record);
    assert_eq!(values.len(), 34);
    let rows = vec![ManiaRow {
        mode_family: "ln".to_owned(),
        dominant_pattern: "stream".to_owned(),
        values: written(&values),
    }];
    let text = export_mania_csv(&vec![record], &rows);
    let lines: Vec<&str> = text.lines().collect();
    assert_eq!(
        lines[0],
        "beatmap_id,beatmapset_id,key_count,mode_family,dominant_pattern,difficulty_percentile,difficulty_band,speed,hand_stream,jack,chordjack,technical,stamina,long_note,course,stream_share,chordstream_share,jacks_share,coordination_share,density_share,wildcard_share,chord_rate,large_chord_rate,rotation_rate,anchor_rate,rhythm_entropy,transition_entropy,ln_note_ratio,hold_occupancy,hybrid_row_ratio,peak_to_sustain_gap,bpm,length_seconds,active_length_seconds,note_count,row_count,avg_nps,peak_nps,break_density,sv_change_rate"
    );
    assert!(lines[1].starts_with("10,1,4,ln,stream,0.5,5,0.25,0.25,"));
    assert_eq!(lines[1].split(',').count(), 40);
    assert_eq!(lines[0].split(',').count(), 40);
    let table = export_mania_parquet(&vec![record]);
    assert_eq!(names(&table), mania_column_names());
    assert_eq!(names(&table).join(","), lines[0]);
    assert!(table.iter().all(|column| !column.nullable));
    assert_eq!(table[3].values, ColumnValues::Bytes(vec![2]));
    assert_eq!(table[5].values, ColumnValues::Numbers(vec![f(0.5)]));
    assert_eq!(table[6].values, ColumnValues::Bytes(vec![5]));
    assert_eq!(table[14].name, "course");
    assert_eq!(table[14].values, ColumnValues::Numbers(vec![f(0.25)]));
    assert_eq!(table[15].values, ColumnValues::Numbers(vec![f(0.0)]));
    assert!(export_mania_parquet(&Vec::new())
        .iter()
        .all(|column| matches!(
            &column.values,
            ColumnValues::Ints(values) if values.is_empty()
        ) || matches!(
            &column.values,
            ColumnValues::Bytes(values) if values.is_empty()
        ) || matches!(
            &column.values,
            ColumnValues::Numbers(values) if values.is_empty()
        )));
}

#[test]
fn sorting_is_stable() {
    let keys = vec![
        RankKey {
            value: f(2.0),
            id: 1,
        },
        RankKey {
            value: f(1.0),
            id: 9,
        },
        RankKey {
            value: f(1.0),
            id: 3,
        },
        RankKey {
            value: f(2.0),
            id: 1,
        },
    ];
    assert_eq!(order_of(&keys), vec![2, 1, 0, 3]);
    let words: Vec<String> = ["b", "", "ab", "a", "ä", "b"]
        .iter()
        .map(|word| word.to_string())
        .collect();
    let mut sorted: Vec<usize> = (0..words.len()).collect();
    sorted.sort_by(|left, right| words[*left].cmp(&words[*right]));
    assert_eq!(order_of(&words), sorted);
}

#[test]
fn texts_behave_as_those_of_the_standard_library() {
    let text = "one\r\ntwo\n\nthree";
    let lines: Vec<String> = lines_of(&chars_of(text))
        .iter()
        .map(|line| string_of(line))
        .collect();
    assert_eq!(lines, text.lines().collect::<Vec<_>>());
    let parts: Vec<String> = split_at_char(&chars_of("a\t\tb"), '\t')
        .iter()
        .map(|part| string_of(part))
        .collect();
    assert_eq!(parts, "a\t\tb".split('\t').collect::<Vec<_>>());
    assert_eq!(string_of(trim(&chars_of(" \u{a0}x y\t\n"))), "x y");
    for number in ["0", "+7", "255", "256", "", "+", "-1", "1a", "007"] {
        assert_eq!(
            parse_number(&chars_of(number), 10, 255),
            number.parse::<u8>().ok().map(u32::from)
        );
    }
    assert_eq!(parse_number(&chars_of("1F600"), 16, u32::MAX), Some(0x1F600));
    assert!(same_ignoring_case(&chars_of("MODE"), &chars_of("mode")));
    assert!(!same_ignoring_case(&chars_of("MODÉ"), &chars_of("modé")));
    assert_eq!(string_of(&lower_all(&chars_of("A.OSZ"))), "a.osz");
    assert!(same_text("é", "é") && !same_text("a", "ab"));
    for number in [0, 7, 10, 1_000_000_007, u64::MAX] {
        let mut chars = Vec::new();
        push_decimal(&mut chars, number);
        assert_eq!(string_of(&chars), number.to_string());
    }
}
