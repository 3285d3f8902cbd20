use std::io::{Cursor, Write};
use std::time::Duration;

use osu_difficulty_lab::archive::{
    archive_kind, entry_kind, entry_plan, finish_import, pack_beatmaps, set_beatmaps,
    verify_zip_complete, ArchiveKind, BeatmapOutcome, EntryKind, EntryPlan, ImportError,
    PackImportReport, SevenZWalk,
};
use osu_difficulty_lab::beatmap::is_standard_beatmap;
use osu_difficulty_lab::catalog::{
    catalog_url, extract_pack_ids, is_known_nonstandard_pack_id, is_standard_pack_id, sorted_ids,
    standard_ids, CatalogWalk,
};
use osu_difficulty_lab::cookie::{read_netscape_cookie, CookieError};
use osu_difficulty_lab::float_bits::F64;
use osu_difficulty_lab::html::{decode_html_entities, extract_download_url};
use osu_difficulty_lab::imports::{
    attempt_failed, attempt_started, attempt_succeeded, begin_import, begin_staged_import,
    end_staged_import, next_attempt, staged_import_failed, AttemptStep, ImportStart,
    StagedFailure,
};
use osu_difficulty_lab::packs::{
    begin_download, plan_downloads, report_of, settle_downloads, worker_count, DownloadOutcome,
    DownloadStart, PackDownloadEvent, PackRun, RunPhase,
};
use osu_difficulty_lab::paths::{index_path, join, staged_path};
use osu_difficulty_lab::source::{
    both_failed, extract_hinamizawa_cascade_url, mirror_failure, mirror_query, official_link,
    pack_page, resolved_link, CascadeError, LinkStep, PackDownloadSource,
};
use osu_difficulty_lab::store::{FeatureStore, Tables};
use osu_difficulty_lab::transfer::{
    exhausted_message, is_below_minimum_download_rate, pause_after, range_header, response_plan,
    slow_message, IncompleteTransfer, ResponsePlan, Transfer, TransferStep,
};

fn empty_store() -> FeatureStore {
    FeatureStore::open("/data".to_owned(), Tables::new())
}

fn zip_of(entries: &[(&str, &[u8])]) -> Vec<u8> {
    let mut archive = zip::ZipWriter::new(Cursor::new(Vec::new()));
    for (name, contents) in entries {
        archive
            .start_file(*name, zip::write::SimpleFileOptions::default())
            .unwrap();
        archive.write_all(contents).unwrap();
    }
    archive.finish().unwrap().into_inner()
}

fn status(store: &FeatureStore, id: &str) -> Option<(String, String, Option<String>)> {
    store
        .tables
        .packs
        .iter()
        .find(|row| row.pack_id == id)
        .map(|row| {
            (
                row.source_url.clone(),
                row.status.clone(),
                row.last_error.clone(),
            )
        })
}

#[test]
fn extracts_authenticated_pack_download() {
    let html = r#"<a href="https://packs.ppy.sh/S1%20-%20test.zip?sig=one&amp;expires=two">download</a>"#;
    assert_eq!(
        extract_download_url(html).as_deref(),
        Some("https://packs.ppy.sh/S1%20-%20test.zip?sig=one&expires=two")
    );
}

#[test]
fn decodes_numeric_entities_in_pack_filename() {
    let html = r#"<a href="https://packs.ppy.sh/A20%20-%20ALiCE&#039;S%20EMOTiON">download</a>"#;
    assert_eq!(
        extract_download_url(html).as_deref(),
        Some("https://packs.ppy.sh/A20%20-%20ALiCE'S%20EMOTiON")
    );
}

fn cascade(body: &str) -> Result<String, CascadeError> {
    let value: serde_json::Value = serde_json::from_str(body).unwrap();
    extract_hinamizawa_cascade_url(
        value.get("success").unwrap().as_bool().unwrap(),
        value.get("download_url").unwrap().as_str().unwrap().to_owned(),
    )
}

#[test]
fn extracts_hinamizawa_cascade_download_url() {
    let body = r#"{
            "download_url":"https://packs.ppy.sh/A26%20-%20Pack.zip",
            "latency_ms":313,
            "layer":1,
            "source":"osu_cdn",
            "success":true,
            "tag":"A26"
        }"#;
    assert_eq!(
        cascade(body).unwrap(),
        "https://packs.ppy.sh/A26%20-%20Pack.zip"
    );
}

#[test]
fn rejects_unsuccessful_hinamizawa_cascade_response() {
    let body = r#"{"download_url":"https://example.com/pack.zip","success":false}"#;
    assert!(cascade(body).is_err());
}

#[test]
fn rejects_plain_http_links_of_the_mirror() {
    let body = r#"{"download_url":"http://example.com/pack.zip","success":true}"#;
    assert_eq!(cascade(body), Err(CascadeError::NotHttps));
    assert_eq!(
        CascadeError::NotHttps.message(),
        "Hinamizawa returned a non-HTTPS download URL"
    );
    assert_eq!(
        CascadeError::Unsuccessful.message(),
        "Hinamizawa reported an unsuccessful pack cascade"
    );
}

#[test]
fn accepts_httponly_netscape_cookie_lines() {
    assert_eq!(
        read_netscape_cookie(
            "# Netscape HTTP Cookie File\n#HttpOnly_.osu.ppy.sh\tTRUE\t/\tTRUE\t0\tosu_session\tsecret\n"
        )
        .unwrap(),
        "osu_session=secret"
    );
}

#[test]
fn accepts_parent_ppy_domain_cookie_lines() {
    assert_eq!(
        read_netscape_cookie(".ppy.sh\tTRUE\t/\tTRUE\t0\tosu_session\tsecret\n").unwrap(),
        "osu_session=secret"
    );
}

#[test]
fn joins_all_cookies_of_the_site() {
    let content = "ppy.sh\tTRUE\t/\tTRUE\t0\ta\t1\nexample.com\tTRUE\t/\tTRUE\t0\tb\t2\n#HttpOnly_osu.ppy.sh\tTRUE\t/\tTRUE\t0\tc\t3\r\n";
    assert_eq!(read_netscape_cookie(content).unwrap(), "a=1; c=3");
}

#[test]
fn refuses_cookie_files_without_cookies_of_the_site() {
    let error = read_netscape_cookie("# nothing here\nexample.com\tTRUE\t/\tTRUE\t0\tb\t2\n");
    assert!(matches!(error, Err(CookieError::NoCookies)));
    assert_eq!(
        CookieError::NoCookies.message(),
        "cookie file contains no Netscape-format osu.ppy.sh cookies; export cookies.txt again from the logged-in osu.ppy.sh tab"
    );
}

#[test]
fn rejects_a_truncated_zip_download() {
    let mut bytes = zip_of(&[("chart.osu", b"contents")]);
    assert!(verify_zip_complete(&bytes).is_ok());
    bytes.truncate(bytes.len() - 4);
    assert!(verify_zip_complete(&bytes).is_err());
}

#[test]
fn slow_download_threshold_triggers_reconnect() {
    assert!(is_below_minimum_download_rate(
        Duration::from_secs(60).as_nanos(),
        59 * 1024 * 1024
    ));
    assert!(!is_below_minimum_download_rate(
        Duration::from_secs(60).as_nanos(),
        60 * 1024 * 1024
    ));
}

#[test]
fn rate_agrees_with_division_near_the_threshold() {
    for nanos in [
        60_000_000_000_u128,
        60_000_000_001,
        61_234_567_891,
        899_999_999_999,
    ] {
        let exact = (nanos * 1_048_576 / 1_000_000_000) as u64;
        for bytes in [exact - 1, exact, exact + 1, 0] {
            let seconds = Duration::new(
                (nanos / 1_000_000_000) as u64,
                (nanos % 1_000_000_000) as u32,
            )
            .as_secs_f64();
            assert_eq!(
                is_below_minimum_download_rate(nanos, bytes),
                bytes as f64 / seconds.max(f64::EPSILON) < 1024.0 * 1024.0
            );
        }
    }
    assert!(is_below_minimum_download_rate(0, 0));
    assert!(!is_below_minimum_download_rate(0, 1));
}

#[test]
fn identifies_only_standard_beatmaps_as_supported() {
    assert!(is_standard_beatmap(b"[General]\nMode: 0\n"));
    assert!(!is_standard_beatmap(b"[General]\nMode: 3\n"));
    assert!(!is_standard_beatmap(b"[General]\nMode: 1\n"));
    assert!(is_standard_beatmap(b"[General]\n"));
}

#[test]
fn keeps_beatmaps_whose_mode_cannot_be_established() {
    assert!(is_standard_beatmap(b"\xff\xfe\nMode: 3\n"));
    assert!(is_standard_beatmap(b"Mode: many\n"));
    assert!(is_standard_beatmap(b"Mode: 256\n"));
    assert!(!is_standard_beatmap("\u{feff}mode :\t+2\r\n".as_bytes()));
    assert!(is_standard_beatmap(b"Mode: 0\nMode: 3\n"));
}

#[test]
fn identifies_known_nonstandard_pack_ids() {
    assert!(is_known_nonstandard_pack_id("ST421"));
    assert!(is_known_nonstandard_pack_id("SM370"));
    assert!(is_known_nonstandard_pack_id("SC164"));
    assert!(!is_known_nonstandard_pack_id("S1845"));
    assert!(!is_known_nonstandard_pack_id("A26"));
}

#[test]
fn standard_packs_are_numbered_and_never_excluded() {
    assert!(is_standard_pack_id("S1845"));
    assert!(!is_standard_pack_id("S"));
    assert!(!is_standard_pack_id("ST421"));
    assert!(!is_standard_pack_id("S18a"));
    assert!(!is_known_nonstandard_pack_id("ST"));
    assert!(!is_known_nonstandard_pack_id("STx"));
}

#[test]
fn lists_the_packs_of_a_catalogue_page() {
    let page = r#"<a href="/beatmaps/packs/S12">x</a><a href="/beatmaps/packs/A">y</a><a href="/beatmaps/packs/12">z</a><a href="/beatmaps/packs/T5-b">t</a>"#;
    assert_eq!(extract_pack_ids(page), vec!["S12", "T5"]);
    assert_eq!(
        catalog_url("featured", 7),
        "https://osu.ppy.sh/beatmaps/packs?type=featured&page=7"
    );
}

#[test]
fn walks_the_catalogue_until_a_page_is_the_last() {
    let more = r#"/beatmaps/packs/S2 pagination-v2__link pagination-v2__link--quick"#;
    let last = "/beatmaps/packs/S1 /beatmaps/packs/ST9 /beatmaps/packs/S2";
    let mut walk = CatalogWalk::new();
    assert!(walk.ids.is_empty() && walk.page.is_none());
    walk.start_type();
    assert_eq!(walk.page, Some(1));
    walk.add_page(more);
    assert_eq!(walk.page, Some(2));
    walk.add_page(last);
    assert_eq!(walk.page, None);
    walk.start_type();
    walk.add_page("nothing");
    assert_eq!(walk.page, None);
    let ids = sorted_ids(&walk.ids);
    assert_eq!(ids, vec!["S1", "S2", "ST9"]);
    assert_eq!(standard_ids(&ids), vec!["S1", "S2"]);
}

#[test]
fn reads_every_page_of_the_catalogue() {
    let mut walk = CatalogWalk::new();
    walk.start_type();
    for page in 1..=200 {
        assert_eq!(walk.page, Some(page));
        let link = if page < 200 {
            "pagination-v2__link pagination-v2__link--quick"
        } else {
            ""
        };
        walk.add_page(&format!("/beatmaps/packs/S{page} {link}"));
    }
    assert_eq!(walk.page, None);
    assert_eq!(sorted_ids(&walk.ids).len(), 200);
    assert!(walk.ids.contains(&"S65".to_owned()));
    assert_eq!(
        catalog_url("standard", 300),
        "https://osu.ppy.sh/beatmaps/packs?type=standard&page=300"
    );
}

#[test]
fn decodes_named_decimal_and_hexadecimal_entities() {
    assert_eq!(
        decode_html_entities("a&amp;b&lt;&gt;&quot;&apos;&#65;&#x42;&#X43;"),
        "a&b<>\"'ABC"
    );
    assert_eq!(decode_html_entities("plain"), "plain");
    assert_eq!(decode_html_entities("&unknown;&#xD800;&"), "&unknown;&#xD800;&");
    assert_eq!(decode_html_entities("&amp;amp;"), "&amp;");
    assert_eq!(decode_html_entities("tail &nbsp"), "tail &nbsp");
    let rest = "b&amp;c;&lt";
    assert_eq!(decode_html_entities(rest), "b&c;&lt");
    assert_eq!(decode_html_entities("a; "), "a; ");
    assert_eq!(decode_html_entities(&format!("a; {rest}")), "a; b&c;&lt");
}

#[test]
fn takes_the_first_link_of_a_download_host_only() {
    let page = r#"<a href="https://example.com/x"><a href="https://dl.osu.ppy.sh/one"><a href="https://packs.ppy.sh/two">"#;
    assert_eq!(
        extract_download_url(page).as_deref(),
        Some("https://dl.osu.ppy.sh/one")
    );
    assert_eq!(extract_download_url("no link"), None);
}

#[test]
fn concurrent_download_emits_a_finished_event_for_skipped_packs() {
    let mut store = empty_store();
    let requested = vec!["ST421".to_owned()];
    read_netscape_cookie(".ppy.sh\tTRUE\t/\tTRUE\t0\tosu_session\tsecret\n").unwrap();
    let plan = plan_downloads(&mut store, &requested);
    let mut events = Vec::new();
    let mut results = Vec::new();
    assert_eq!(worker_count(1, requested.len()), 1);
    for pack_id in &plan.queued {
        let mut run = PackRun::new(pack_id.clone());
        events.push(run.start());
        assert_eq!(begin_download("/data", pack_id), DownloadStart::NotStandard);
        let (report, event) = run.finish(DownloadOutcome::NotStandard);
        events.push(event);
        results.push(report);
    }
    let reports = settle_downloads(&mut store, plan, results);
    assert_eq!(reports.len(), 1);
    assert!(reports[0].skipped);
    assert!(matches!(
        events.as_slice(),
        [
            PackDownloadEvent::Started { pack_id },
            PackDownloadEvent::Finished(report)
        ] if pack_id == "ST421" && report.skipped
    ));
    assert!(store.pack_is_excluded("ST421"));
}

#[test]
fn sequential_import_skips_known_nonstandard_packs_without_a_request() {
    let mut store = empty_store();
    assert_eq!(
        begin_import(&mut store, "ST421", false),
        ImportStart::Nothing
    );
    assert_eq!(
        PackImportReport::default(),
        PackImportReport {
            processed: 0,
            inserted: 0,
            skipped: 0,
            failed: 0
        }
    );
    assert!(store.pack_is_excluded("ST421"));
}

#[test]
fn batches_report_every_pack_once_and_keep_complete_ones() {
    let mut store = empty_store();
    store.mark_pack("S1", "https://one", "complete", None);
    store.mark_pack("ST5", "catalogue-filter", "excluded", None);
    let requested: Vec<String> = ["S3", "S1", "ST5", "S2", "S4"]
        .iter()
        .map(|id| id.to_string())
        .collect();
    let plan = plan_downloads(&mut store, &requested);
    assert_eq!(plan.queued, vec!["S3", "S2", "S4"]);
    assert_eq!(plan.reports.len(), 2);
    assert!(plan.reports[0].already_complete && plan.reports[1].skipped);
    assert_eq!(
        status(&store, "S3"),
        Some(("pending".to_owned(), "queued".to_owned(), None))
    );
    let results = vec![
        report_of(
            "S4".to_owned(),
            DownloadOutcome::Failed {
                error: "timed out".to_owned(),
            },
        ),
        report_of("S3".to_owned(), DownloadOutcome::Downloaded),
        report_of("S2".to_owned(), DownloadOutcome::NotStandard),
    ];
    let reports = settle_downloads(&mut store, plan, results);
    let ids: Vec<&str> = reports
        .iter()
        .map(|report| report.pack_id.as_str())
        .collect();
    assert_eq!(ids, vec!["S1", "S2", "S3", "S4", "ST5"]);
    assert_eq!(
        status(&store, "S1"),
        Some(("https://one".to_owned(), "complete".to_owned(), None))
    );
    assert_eq!(
        status(&store, "S2"),
        Some((
            "pending".to_owned(),
            "excluded".to_owned(),
            Some("pack contains no osu!standard beatmaps".to_owned())
        ))
    );
    assert_eq!(
        status(&store, "S3"),
        Some(("pending".to_owned(), "downloaded".to_owned(), None))
    );
    assert_eq!(
        status(&store, "S4"),
        Some((
            "pending".to_owned(),
            "failed".to_owned(),
            Some("timed out".to_owned())
        ))
    );
}

#[test]
fn batches_without_downloads_keep_the_requested_order() {
    let mut store = empty_store();
    store.mark_pack("S2", "x", "complete", None);
    store.mark_pack("S1", "x", "complete", None);
    let requested = vec!["S2".to_owned(), "S1".to_owned()];
    let plan = plan_downloads(&mut store, &requested);
    assert!(plan.queued.is_empty());
    let reports = settle_downloads(&mut store, plan, Vec::new());
    assert_eq!(reports[0].pack_id, "S2");
    assert_eq!(reports[1].pack_id, "S1");
}

#[test]
fn workers_are_at_least_one_and_at_most_the_packs() {
    assert_eq!(worker_count(0, 3), 1);
    assert_eq!(worker_count(2, 3), 2);
    assert_eq!(worker_count(9, 3), 3);
    assert_eq!(
        begin_download("/data", "S1"),
        DownloadStart::Fetch {
            destination: "/data/tmp/S1.part".to_owned()
        }
    );
}

#[test]
fn staged_imports_record_how_they_end() {
    let mut store = empty_store();
    assert_eq!(
        begin_staged_import(&mut store, "S1", false),
        Err("no downloaded archive exists for official pack S1".to_owned())
    );
    assert_eq!(begin_import(&mut store, "S1", true), ImportStart::Staged);
    assert_eq!(begin_staged_import(&mut store, "S1", true), Ok(true));
    assert_eq!(
        status(&store, "S1"),
        Some(("/data/tmp/S1.part".to_owned(), "processing".to_owned(), None))
    );
    let broken = PackImportReport {
        processed: 7,
        inserted: 4,
        skipped: 1,
        failed: 2,
    };
    let text = "2 of 7 osu!standard beatmaps failed analysis; retained archive for retry";
    let failures = ImportError::Failures {
        failed: 2,
        processed: 7,
    };
    assert_eq!(failures.message(), text);
    for outcome in [Ok(broken), Err(StagedFailure::Import(failures))] {
        assert_eq!(
            end_staged_import(&mut store, "S1", outcome),
            Err(format!("official pack S1: {text}"))
        );
        assert_eq!(status(&store, "S1").unwrap().2.as_deref(), Some(text));
    }
    let unreadable = StagedFailure::Unreadable {
        message: "broken".to_owned(),
    };
    assert_eq!(
        end_staged_import(&mut store, "S1", Err(unreadable)),
        Err("broken".to_owned())
    );
    let empty = StagedFailure::Import(ImportError::NoBeatmaps { seven_z: false });
    assert_eq!(
        end_staged_import(&mut store, "S1", Err(empty)),
        Err("official pack archive contains no .osu beatmaps".to_owned())
    );
    assert_eq!(staged_import_failed(&mut store, "S1", "broken", false), None);
    assert_eq!(
        staged_import_failed(&mut store, "S1", "broken", true).as_deref(),
        Some("official pack S1: RAR archive support is unavailable: broken")
    );
    assert_eq!(
        status(&store, "S1").unwrap().2.as_deref(),
        Some("RAR archive support is unavailable: broken")
    );
    let good = PackImportReport {
        processed: 3,
        inserted: 2,
        skipped: 1,
        failed: 0,
    };
    assert_eq!(end_staged_import(&mut store, "S1", Ok(good)), Ok(good));
    assert!(store.pack_is_complete("S1"));
    assert_eq!(begin_staged_import(&mut store, "S1", true), Ok(false));
    assert_eq!(begin_import(&mut store, "S1", true), ImportStart::Nothing);
}

#[test]
fn attempts_are_repeated_with_growing_pauses() {
    let mut store = empty_store();
    assert_eq!(begin_import(&mut store, "S9", false), ImportStart::Download);
    attempt_started(&mut store, "S9", "https://packs.ppy.sh/S9");
    assert_eq!(status(&store, "S9").unwrap().1, "downloading");
    assert_eq!(
        attempt_failed(&mut store, "S9", 1, false, "reset"),
        AttemptStep::Retry { pause: Some(2) }
    );
    assert_eq!(
        status(&store, "S9"),
        Some((
            "https://packs.ppy.sh/S9".to_owned(),
            "retrying".to_owned(),
            Some("reset".to_owned())
        ))
    );
    assert_eq!(
        attempt_failed(&mut store, "S9", 2, true, "slow"),
        AttemptStep::Retry { pause: None }
    );
    assert_eq!(
        attempt_failed(&mut store, "S9", 3, false, "reset"),
        AttemptStep::GiveUp {
            message: "official pack S9 failed after 3 attempts: reset".to_owned()
        }
    );
    assert_eq!(status(&store, "S9").unwrap().1, "failed");
    assert_eq!(begin_import(&mut store, "S9", false), ImportStart::Download);
    attempt_succeeded(&mut store, "S9", "https://packs.ppy.sh/S9");
    assert_eq!(begin_import(&mut store, "S9", false), ImportStart::Nothing);
    assert_eq!(
        next_attempt("S9", 2, false, "x"),
        AttemptStep::Retry { pause: Some(4) }
    );
    assert_eq!(pause_after(1, false), Some(2));
    assert_eq!(pause_after(2, false), Some(4));
    assert_eq!(pause_after(3, false), None);
    assert_eq!(
        exhausted_message("S9", "x"),
        "official pack S9 failed after 3 attempts: x"
    );
}

#[test]
fn transfers_resume_restart_or_start_afresh() {
    assert_eq!(range_header(0), None);
    assert_eq!(range_header(4096).as_deref(), Some("bytes=4096-"));
    assert_eq!(response_plan(10, 206), ResponsePlan::Resume);
    assert_eq!(response_plan(10, 416), ResponsePlan::Restart);
    assert_eq!(response_plan(10, 200), ResponsePlan::Fresh);
    assert_eq!(response_plan(0, 206), ResponsePlan::Fresh);
}

#[test]
fn transfers_count_bytes_and_report_in_intervals() {
    let mut transfer = Transfer::start(2, 100, Some(50));
    assert_eq!(transfer.total_bytes, Some(150));
    assert_eq!(transfer.receive(20, 100_000_000), TransferStep::Continue);
    assert_eq!(transfer.receive(20, 250_000_000), TransferStep::Report);
    assert_eq!(transfer.receive(5, 499_999_999), TransferStep::Continue);
    assert_eq!(transfer.downloaded_bytes, 145);
    assert_eq!(transfer.transferred_bytes(), 45);
    assert_eq!(
        transfer.finish(),
        Err(IncompleteTransfer {
            downloaded_bytes: 145,
            expected_bytes: 150
        })
    );
    assert_eq!(
        transfer.finish().unwrap_err().message(),
        "download ended at 145 bytes, but the server declared 150 bytes"
    );
    assert_eq!(transfer.receive(5, 500_000_000), TransferStep::Report);
    assert_eq!(transfer.finish(), Ok(()));
    assert_eq!(Transfer::start(1, 0, None).finish(), Ok(()));
}

#[test]
fn transfers_are_given_up_when_a_window_was_slow() {
    let minute = 60_000_000_000_u128;
    let mebibyte = 1_048_576_u64;
    let mut fast = Transfer::start(1, 0, None);
    assert_eq!(fast.receive(60 * mebibyte, minute), TransferStep::Report);
    assert_eq!(fast.window_start, minute);
    assert_eq!(fast.window_bytes, 0);
    let mut slow = Transfer::start(1, 0, None);
    assert_eq!(
        slow.receive(60 * mebibyte - 1, minute),
        TransferStep::TooSlow {
            window: minute,
            bytes: 60 * mebibyte - 1
        }
    );
    assert_eq!(
        slow_message("0.42"),
        "download rate 0.42 MiB/s stayed below 1.00 MiB/s for 60 seconds; reconnecting"
    );
}

#[test]
fn links_come_from_the_mirror_or_the_official_site() {
    assert_eq!(
        PackDownloadSource::Official.first_step(),
        LinkStep::AskOfficial
    );
    assert_eq!(
        PackDownloadSource::Hinamizawa.first_step(),
        LinkStep::AskMirror
    );
    assert_eq!(pack_page("S1"), "https://osu.ppy.sh/beatmaps/packs/S1");
    assert_eq!(
        mirror_query("S1"),
        "https://mirror.hinamizawa.ai/v3/osu/packs/S1/cascade?format=json"
    );
    assert_eq!(
        official_link("S1", r#"<a href="https://packs.ppy.sh/S1">"#),
        Ok("https://packs.ppy.sh/S1".to_owned())
    );
    assert_eq!(
        official_link("S1", "login"),
        Err("official pack S1 did not expose an authenticated download link; refresh the osu.ppy.sh Cookie file".to_owned())
    );
    assert_eq!(
        mirror_failure("S1"),
        "parse Hinamizawa cascade response for S1"
    );
    let both = "Hinamizawa could not resolve official pack S1: gone; official fallback also failed";
    assert_eq!(both_failed("S1", "gone"), both);
    assert_eq!(
        resolved_link("S1", Some("gone".to_owned()), Err("none".to_owned())),
        Err(both.to_owned())
    );
    assert_eq!(
        resolved_link("S1", None, Err("none".to_owned())),
        Err("none".to_owned())
    );
    assert_eq!(
        resolved_link("S1", Some("gone".to_owned()), Ok("u".to_owned())),
        Ok("u".to_owned())
    );
}

#[test]
fn archives_are_told_apart_by_their_signature() {
    assert_eq!(
        archive_kind(b"7z\xBC\xAF\x27\x1Crest"),
        Some(ArchiveKind::SevenZ)
    );
    assert_eq!(archive_kind(b"Rar!\x1A\x07\x00"), Some(ArchiveKind::Rar));
    assert_eq!(archive_kind(b"PK\x03\x04xx"), Some(ArchiveKind::Zip));
    assert_eq!(archive_kind(b"PK"), None);
    assert_eq!(entry_kind("a/B.OSU"), EntryKind::Beatmap);
    assert_eq!(entry_kind("set.Osz"), EntryKind::BeatmapSet);
    assert_eq!(entry_kind("osu.png"), EntryKind::Other);
}

#[test]
fn packs_give_their_beatmaps_in_order() {
    let set = zip_of(&[
        ("one.osu", b"1" as &[u8]),
        ("cover.jpg", b"x"),
        ("two.OSU", b"2"),
    ]);
    let pack = zip_of(&[("set.osz", &set as &[u8]), ("three.osu", b"3"), ("readme", b"r")]);
    let found = set_beatmaps(&set);
    assert!(found.failure.is_none());
    assert_eq!(found.files, vec![b"1".to_vec(), b"2".to_vec()]);
    let found = pack_beatmaps(&pack);
    assert!(found.failure.is_none());
    assert_eq!(
        found.files,
        vec![b"1".to_vec(), b"2".to_vec(), b"3".to_vec()]
    );
    let broken = zip_of(&[("first.osu", b"1" as &[u8]), ("set.osz", b"no archive")]);
    let found = pack_beatmaps(&broken);
    assert!(found.failure.is_some());
    assert_eq!(found.files, vec![b"1".to_vec()]);
    assert!(pack_beatmaps(b"no archive").failure.is_some());
}

#[test]
fn import_reports_stay_balanced() {
    let mut report = PackImportReport::default();
    report.record_other_mode();
    report.record(BeatmapOutcome::Inserted);
    report.record(BeatmapOutcome::Unchanged);
    report.record(BeatmapOutcome::Failed);
    assert_eq!(
        report,
        PackImportReport {
            processed: 4,
            inserted: 1,
            skipped: 2,
            failed: 1
        }
    );
    report.record_broken_set();
    assert_eq!(report.failed, 2);
    assert_eq!(finish_import(report, ArchiveKind::Zip), Ok(report));
    let empty = PackImportReport::default();
    assert_eq!(
        finish_import(empty, ArchiveKind::Zip).unwrap_err().message(),
        "official pack archive contains no .osu beatmaps"
    );
    assert_eq!(
        finish_import(empty, ArchiveKind::SevenZ),
        Err(ImportError::NoBeatmaps { seven_z: true })
    );
    assert_eq!(
        ImportError::NoBeatmaps { seven_z: true }.message(),
        "official 7z pack archive contains no .osu beatmaps"
    );
    assert_eq!(
        finish_import(report, ArchiveKind::Rar).unwrap_err().message(),
        "RAR archive support is unavailable"
    );
}

#[test]
fn paths_join_as_directories_do() {
    assert_eq!(join("/data", "tmp"), "/data/tmp");
    assert_eq!(join("/data/", "tmp"), "/data/tmp");
    assert_eq!(join("", "tmp"), "tmp");
    assert_eq!(join("/data", "/abs"), "/abs");
    assert_eq!(staged_path("root", "S1"), "root/tmp/S1.part");
    assert_ne!(staged_path("root", "S1"), staged_path("root", "S11"));
    assert_eq!(index_path("root", 12), "root/indexes/mania-v12.buckets");
}

#[test]
fn the_events_of_a_pack_come_in_order() {
    let mut run = PackRun::new("S1".to_owned());
    assert_eq!(run.phase, RunPhase::Queued);
    let started = run.start();
    assert_eq!(
        started,
        PackDownloadEvent::Started {
            pack_id: "S1".to_owned()
        }
    );
    let progress = Transfer::start(1, 0, Some(7)).progress(F64::from_bits(0));
    assert_eq!(
        run.advance(progress),
        PackDownloadEvent::Progress {
            pack_id: "S1".to_owned(),
            progress
        }
    );
    assert_eq!(run.phase, RunPhase::Running);
    let (report, finished) = run.finish(DownloadOutcome::Downloaded);
    assert!(report.succeeded);
    assert_eq!(report, report_of("S1".to_owned(), DownloadOutcome::Downloaded));
    assert_eq!(finished, PackDownloadEvent::Finished(report));
    assert_eq!(run.phase, RunPhase::Done);
}

#[test]
fn seven_z_packs_count_their_broken_sets() {
    assert_eq!(entry_plan("songs.osu", true), EntryPlan::Pass);
    assert_eq!(entry_plan("audio.mp3", false), EntryPlan::Drain);
    assert_eq!(entry_plan("A.OSU", false), EntryPlan::Read);
    assert_eq!(entry_plan("a.osz", false), EntryPlan::Read);
    let mut walk = SevenZWalk::new();
    walk.add_entry("one.osu", b"first".to_vec());
    walk.add_entry("audio.mp3", b"dropped".to_vec());
    walk.add_entry("set.osz", zip_of(&[("x.osu", b"inner"), ("bg.png", b"picture")]));
    walk.add_entry("broken.osz", b"no archive".to_vec());
    assert_eq!(walk.files, vec![b"first".to_vec(), b"inner".to_vec()]);
    assert_eq!(walk.broken_sets, 1);
}
