use std::io::{Cursor, Write};
use teamy_subs::archive::{extract_subtitle, preferred_subtitle, ArchiveError};
use teamy_subs::lease::{
    cleanup, cleanup_xml, checked_path, generate_lease_name, lease_name_for, lease_names,
    lease_status, logout, new_lease, select_lease, store_request, superseded_leases, task_name,
    valid_lease_name, xml_escape, Lease, LeaseError, SubdlCleanupArgs, SubdlLogoutArgs,
    SubdlStatusArgs,
};
use teamy_subs::subdl::{
    accept_chunk, download_path, lease_expiry_text, normalized_language, pick_index,
    save_step, staging_path, SaveAction, SaveEvent, SaveFailure, SaveState, subtitle_output_path, summarize, AccountResponse, Plan, Quota,
    SubdlAccountShowArgs, SubdlError, SubdlLoginArgs, SubdlSubtitleDownloadArgs,
    SubdlSubtitleSearchArgs, SubdlTitleSearchArgs, SubtitleListing, Title, TitleMatch,
    TitleSearchResponse, Usage,
};
use teamy_subs::ytdlp::{DownloadArgs, YtDlpDownloadArgs};

fn lease(purpose: &str, issued_at: i64, expires_at: i64, key: &str) -> Lease {
    Lease {
        schema: "teamy-subs.subdl-lease/1".to_owned(),
        purpose: purpose.to_owned(),
        issued_at,
        expires_at,
        api_key: key.to_owned(),
    }
}

fn zip_of(files: &[(&str, &[u8])]) -> Vec<u8> {
    let mut writer = zip::ZipWriter::new(Cursor::new(Vec::new()));
    let options = zip::write::SimpleFileOptions::default();
    for (name, contents) in files {
        writer.start_file(*name, options).unwrap();
        writer.write_all(contents).unwrap();
    }
    writer.finish().unwrap().into_inner()
}

fn strings(v: &[&str]) -> Vec<String> {
    v.iter().map(|s| s.to_string()).collect()
}

#[test]
fn lease_expires_at_boundary_and_rejects_other_purposes() {
    let mut lease = lease("subdl-api", 100, 200, "dummy-only");
    assert!(lease.valid(100));
    assert!(lease.valid(199));
    assert!(!lease.valid(200));
    assert!(!lease.valid(99));
    lease.purpose = "other".to_owned();
    assert!(!lease.valid(150));
}

#[test]
fn cleanup_only_accepts_generated_names() {
    assert!(valid_lease_name("lease-00000000000000000000000000000001.bin"));
    for invalid in ["../lease-123.bin", "lease-*.bin", "user-file.txt"] {
        assert!(!valid_lease_name(invalid));
    }
}

#[test]
fn leases_with_blank_keys_wrong_schema_or_long_lives_are_refused() {
    assert!(!lease("subdl-api", 100, 200, "  \t").valid(150));
    assert!(!lease("subdl-api", 100, 100 + 3601, "k").valid(150));
    assert!(lease("subdl-api", 100, 100 + 3600, "k").valid(150));
    let mut other_schema = lease("subdl-api", 100, 200, "k");
    other_schema.schema = "teamy-subs.subdl-lease/2".to_owned();
    assert!(!other_schema.valid(150));
}

#[test]
fn new_leases_are_valid_for_their_whole_lifetime() {
    let fresh = new_lease("key".to_string(), 1_000, 15);
    assert_eq!(fresh.expires_at, 1_000 + 15 * 60);
    assert!(fresh.valid(1_000));
    assert!(fresh.valid(1_000 + 15 * 60 - 1));
    assert!(!fresh.valid(1_000 + 15 * 60));
}

#[test]
fn store_requests_check_lifetime_then_key() {
    assert!(matches!(
        store_request("key".to_string(), 0, 10),
        Err(LeaseError::TtlOutOfRange)
    ));
    assert!(matches!(
        store_request(" ".to_string(), 61, 10),
        Err(LeaseError::TtlOutOfRange)
    ));
    assert!(matches!(store_request(" ".to_string(), 60, 10), Err(LeaseError::EmptyKey)));
    let Ok((stored, name)) = store_request("key".to_string(), 60, 10) else {
        panic!("a valid store request was refused");
    };
    assert_eq!(stored.issued_at, 10);
    assert_eq!(stored.expires_at, 10 + 3600);
    assert!(stored.valid(10));
    assert!(valid_lease_name(&name));
}

#[test]
fn generated_lease_names_are_accepted_by_cleanup() {
    assert_eq!(lease_name_for(1), "lease-00000000000000000000000000000001.bin");
    assert_eq!(lease_name_for(u128::MAX), "lease-ffffffffffffffffffffffffffffffff.bin");
    let name = generate_lease_name();
    assert!(name.starts_with("lease-") && name.ends_with(".bin"));
    assert_eq!(cleanup(&name), Ok(()));
    assert_eq!(cleanup("../etc/passwd"), Err(LeaseError::InvalidLeaseIdentity));
    assert_eq!(
        SubdlCleanupArgs { lease: "lease-*.bin".to_string() }.invoke(),
        Err(LeaseError::InvalidLeaseIdentity)
    );
}

#[test]
fn lease_paths_are_checked_and_joined() {
    let name = "lease-0000000000000000000000000000abcd.bin";
    assert_eq!(checked_path("/data", name).unwrap(), format!("/data/{name}"));
    assert_eq!(checked_path("/data/", name).unwrap(), format!("/data/{name}"));
    assert_eq!(checked_path("/data", "x.bin"), Err(LeaseError::InvalidLeaseIdentity));
}

#[test]
fn listed_leases_are_filtered_and_sorted() {
    let a = "lease-0000000000000000000000000000000a.bin";
    let b = "lease-0000000000000000000000000000000b.bin";
    let entries = strings(&[b, "notes.txt", a, "lease-x.bin"]);
    assert_eq!(lease_names(&entries), strings(&[a, b]));
    assert_eq!(logout(&entries), strings(&[a, b]));
    assert_eq!(SubdlLogoutArgs.invoke(&entries).len(), 2);
    assert_eq!(superseded_leases(&entries, b), strings(&[a]));
}

#[test]
fn the_newest_usable_lease_is_selected_and_the_rest_are_stale() {
    let entries = vec![
        Some(lease("subdl-api", 100, 400, "older")),
        None,
        Some(lease("subdl-api", 200, 500, "newer")),
        Some(lease("other", 300, 600, "wrong")),
        Some(lease("subdl-api", 200, 700, "tie")),
    ];
    let selection = select_lease(&entries, 250);
    assert_eq!(selection.selected, Some(2));
    assert_eq!(selection.stale, vec![1, 3]);
    assert_eq!(select_lease(&entries, 1_000).selected, None);
}

#[test]
fn status_counts_usable_leases_and_longest_remaining_time() {
    let entries = vec![
        Some(lease("subdl-api", 100, 400, "a")),
        Some(lease("subdl-api", 200, 700, "b")),
        Some(lease("other", 100, 900, "c")),
        None,
    ];
    assert_eq!(lease_status(&entries, 300), (2, 400));
    assert_eq!(SubdlStatusArgs.invoke(&entries, 300), (2, 400));
    assert_eq!(lease_status(&entries, 5_000), (0, 0));
}

#[test]
fn task_xml_has_no_shell_and_retains_cleanup_guards() {
    let xml = cleanup_xml(
        "lease-00000000000000000000000000000000.bin",
        "S-1-5-21-1000",
        "C:\\example & test\\teamy-subs.exe",
        1_700_000_000,
    )
    .unwrap();
    assert!(xml.contains("example &amp; test"));
    for guard in [
        "<StartWhenAvailable>true",
        "<DeleteExpiredTaskAfter>P30D",
        "<EndBoundary>",
        "subdl cleanup --lease",
        "<RunLevel>LeastPrivilege",
    ] {
        assert!(xml.contains(guard));
    }
    assert!(!xml.contains("powershell"));
}

#[test]
fn task_xml_starts_at_expiry_and_ends_thirty_days_later() {
    let xml = cleanup_xml("lease-00000000000000000000000000000000.bin", "S", "x.exe", 0).unwrap();
    assert!(xml.contains("<StartBoundary>1970-01-01T00:00:00Z</StartBoundary>"));
    assert!(xml.contains("<EndBoundary>1970-01-31T00:00:00Z</EndBoundary>"));
    assert_eq!(cleanup_xml("lease-0.bin", "S", "x.exe", i64::MAX), None);
}

#[test]
fn task_names_and_xml_escapes() {
    assert_eq!(task_name("S-1", "lease-1.bin"), "Teamy-Subs-SubDL-S-1-lease-1.bin");
    assert_eq!(xml_escape("<a href=\"x\">'&'</a>"), "&lt;a href=&quot;x&quot;&gt;&apos;&amp;&apos;&lt;/a&gt;");
}

#[test]
fn login_expiry_is_written_in_rfc3339() {
    assert_eq!(lease_expiry_text(0).unwrap(), "1970-01-01T00:00:00+00:00");
    assert_eq!(lease_expiry_text(1_431_648_000).unwrap(), "2015-05-15T00:00:00+00:00");
    assert_eq!(lease_expiry_text(i64::MAX), Err(SubdlError::InvalidExpiry));
}

#[test]
fn login_lifetime_defaults_to_fifteen_minutes() {
    assert_eq!(SubdlLoginArgs { ttl_minutes: None }.ttl(), Ok(15));
    assert_eq!(SubdlLoginArgs { ttl_minutes: Some(60) }.ttl(), Ok(60));
    assert_eq!(SubdlLoginArgs { ttl_minutes: Some(0) }.ttl(), Err(SubdlError::TtlOutOfRange));
    assert_eq!(SubdlLoginArgs { ttl_minutes: Some(61) }.ttl(), Err(SubdlError::TtlOutOfRange));
}

#[test]
fn download_path_discards_the_key_bearing_query() {
    assert_eq!(
        download_path("/subtitle/1-2.zip?api_key=dummy-secret").unwrap(),
        "subtitle/1-2.zip"
    );
    for bad in [
        "/other/1-2.zip",
        "/subtitle/../x.zip",
        "/subtitle/a:b.zip",
        "/subtitle/1-2.rar",
        "https://evil/subtitle/1.zip",
    ] {
        assert_eq!(download_path(bad), Err(SubdlError::UnexpectedDownloadPath));
    }
}

#[test]
fn response_size_limit() {
    assert!(accept_chunk(0, 10, 10));
    assert!(!accept_chunk(5, 6, 10));
    assert!(accept_chunk(20, 0, 10));
    assert!(!accept_chunk(20, 1, 10));
}

#[test]
fn picks_are_one_based() {
    assert_eq!(pick_index(1, 3), Ok(0));
    assert_eq!(pick_index(3, 3), Ok(2));
    assert_eq!(pick_index(0, 3), Err(SubdlError::InvalidPick));
    assert_eq!(pick_index(4, 3), Err(SubdlError::InvalidPick));
}

#[test]
fn languages_are_lowercased_and_checked() {
    assert_eq!(normalized_language(None).unwrap(), "en");
    assert_eq!(normalized_language(Some("PT-br")).unwrap(), "pt-br");
    assert_eq!(normalized_language(Some("")), Err(SubdlError::InvalidLanguage));
    assert_eq!(normalized_language(Some("e n")), Err(SubdlError::InvalidLanguage));
    let args = SubdlSubtitleDownloadArgs {
        file: "videos/Movie.2020.mkv".to_string(),
        language: Some("FR".to_string()),
        output_dir: None,
        pick: None,
        force: false,
    };
    assert_eq!(args.language().unwrap(), "fr");
    assert_eq!(
        args.video_names().unwrap(),
        ("Movie.2020.mkv".to_string(), "Movie.2020".to_string())
    );
}

#[test]
fn subtitle_is_saved_beside_the_video_name() {
    assert_eq!(subtitle_output_path("subs", "movie", "en", "srt"), "subs/movie.en.srt");
    assert_eq!(subtitle_output_path("", "movie", "en", "srt"), "movie.en.srt");
}

#[test]
fn replacing_saves_stage_a_hidden_file_beside_the_target() {
    assert_eq!(
        staging_path("subs/movie.en.srt", 42, 1234567890123, 3).unwrap(),
        "subs/.movie.en.srt.teamy-subs-42-1234567890123-3.tmp"
    );
    assert_eq!(staging_path("subs/..", 1, 1, 0), Err(SubdlError::NoFileName));
}

#[test]
fn season_pack_with_multiple_subtitle_files_is_ambiguous() {
    let bytes = zip_of(&[
        ("episode-1.srt", b"1\n00:00:01,000 --> 00:00:02,000\nOne\n"),
        ("episode-2.srt", b"1\n00:00:01,000 --> 00:00:02,000\nTwo\n"),
    ]);
    assert!(extract_subtitle(&bytes).is_err());
    assert_eq!(extract_subtitle(&bytes), Err(ArchiveError::Ambiguous));
}

#[test]
fn archive_takes_the_most_preferred_format() {
    let bytes = zip_of(&[
        ("readme.txt", b"hello"),
        ("movie.vtt", b"WEBVTT\n"),
        ("movie.ass", b"[Script Info]\n"),
        ("Movie.SRT", b"1\n"),
    ]);
    assert_eq!(extract_subtitle(&bytes), Ok(("srt", b"1\n".to_vec())));
    let only_vtt = zip_of(&[("a.vtt", b"WEBVTT\n"), ("b.vtt", b""), ("c.txt", b"x")]);
    assert_eq!(extract_subtitle(&only_vtt), Ok(("vtt", b"WEBVTT\n".to_vec())));
}

#[test]
fn archive_errors() {
    assert_eq!(extract_subtitle(b"not a zip"), Err(ArchiveError::Unreadable));
    let none = zip_of(&[("notes.txt", b"x")]);
    assert_eq!(extract_subtitle(&none), Err(ArchiveError::NoSubtitle));
}

#[test]
fn listing_choice_prefers_srt_then_ass_then_vtt() {
    let listing = vec![
        ("dir/".to_string(), true, 0),
        ("b.ass".to_string(), false, 10),
        ("c.vtt".to_string(), false, 10),
        ("huge.srt".to_string(), false, 10 * 1024 * 1024 + 1),
    ];
    assert_eq!(preferred_subtitle(&listing), Ok((1, "ass")));
    let tied = vec![("x.ass".to_string(), false, 1), ("y.ASS".to_string(), false, 1)];
    assert_eq!(preferred_subtitle(&tied), Err(ArchiveError::Ambiguous));
    assert_eq!(preferred_subtitle(&[]), Err(ArchiveError::NoSubtitle));
}

#[test]
fn subtitle_output_never_contains_download_url_or_key() {
    let title_match = Some(TitleMatch {
        title: "Perfect Blue".to_string(),
        year: Some(1997),
        confidence: None,
        engine: None,
    });
    let listing = vec![SubtitleListing {
        name: "match.zip".to_string(),
        release_name: "Perfect.Blue.1997.1080p.BluRay.x264-[YTS.AM]".to_string(),
        lang: "english".to_string(),
        language: Some("EN".to_string()),
    }];
    let rows = summarize(&title_match, &[], &listing);
    assert_eq!(rows.len(), 1);
    let row = &rows[0];
    assert_eq!(row.pick, 1);
    assert_eq!(row.title, "Perfect Blue");
    assert_eq!(row.year, Some(1997));
    assert_eq!(row.language, "EN");
    assert_eq!(row.archive_name, "match.zip");
    for field in [&row.title, &row.release_name, &row.language, &row.archive_name] {
        assert!(!field.contains("dummy-secret"));
        assert!(!field.contains("/subtitle/"));
    }
}

#[test]
fn summary_title_falls_back_to_first_result() {
    let results = vec![Title {
        name: "Found".to_string(),
        year: Some(2001),
        media_type: None,
        imdb_id: None,
        tmdb_id: None,
    }];
    let listing = vec![
        SubtitleListing {
            name: "a.zip".to_string(),
            release_name: "A".to_string(),
            lang: "french".to_string(),
            language: None,
        },
        SubtitleListing {
            name: "b.zip".to_string(),
            release_name: "B".to_string(),
            lang: "german".to_string(),
            language: None,
        },
    ];
    let rows = summarize(&None, &results, &listing);
    assert_eq!(rows[0].title, "Found");
    assert_eq!(rows[0].year, None);
    assert_eq!(rows[1].pick, 2);
    assert_eq!(rows[1].language, "german");
    assert_eq!(summarize(&None, &[], &listing)[0].title, "");
}

#[test]
fn subtitle_search_request_uses_the_file_name() {
    let args = SubdlSubtitleSearchArgs { file: "a/b/Release.mkv".to_string(), language: None };
    assert_eq!(args.request().unwrap(), ("Release.mkv".to_string(), "en".to_string()));
    let args = SubdlSubtitleSearchArgs { file: "/".to_string(), language: Some("de".to_string()) };
    assert_eq!(args.request(), Err(SubdlError::NoFileName));
}

#[test]
fn title_rows_and_account_report() {
    let response = TitleSearchResponse {
        results: vec![Title {
            name: "Perfect Blue".to_string(),
            year: Some(1997),
            media_type: Some("movie".to_string()),
            imdb_id: Some("tt0156887".to_string()),
            tmdb_id: Some(10494),
        }],
    };
    let rows = SubdlTitleSearchArgs { query: "perfect blue".to_string() }.rows(&response);
    assert_eq!(rows.len(), 1);
    assert_eq!(rows[0].name, "Perfect Blue");
    assert_eq!(rows[0].media_type.as_deref(), Some("movie"));
    assert_eq!(rows[0].tmdb_id, Some(10494));

    let account = AccountResponse {
        plan: Plan { name: "free".to_string() },
        usage: Usage {
            search: Quota { used: 1, limit: 10, remaining: 9 },
            downloads: Quota { used: 2, limit: 5, remaining: 3 },
        },
    };
    let report = SubdlAccountShowArgs.report(&account);
    assert_eq!(report.plan, "free");
    assert_eq!(report.searches_remaining, 9);
    assert_eq!(report.downloads_used, 2);
    assert_eq!(report.downloads_limit, 5);
}

#[test]
fn yt_dlp_downloads_subtitles_only() {
    let args = YtDlpDownloadArgs {
        url: "https://example.invalid/v".to_string(),
        output_dir: None,
        sub_langs: None,
        no_auto_subs: false,
    };
    assert_eq!(
        args.arguments("out"),
        vec![
            "--skip-download",
            "--write-subs",
            "--sub-langs",
            "all",
            "--sub-format",
            "vtt",
            "--convert-subs",
            "vtt",
            "--paths",
            "home:out",
            "--write-auto-subs",
            "https://example.invalid/v",
        ]
    );
    let legacy = DownloadArgs {
        url: "u".to_string(),
        output_dir: Some("d".to_string()),
        sub_langs: Some("en,fr".to_string()),
        no_auto_subs: true,
    };
    let arguments = legacy.arguments("d");
    assert_eq!(arguments[3], "en,fr");
    assert!(!arguments.iter().any(|a| a == "--write-auto-subs"));
    assert_eq!(arguments.last().unwrap(), "u");
}

#[test]
fn staging_files_sit_in_the_target_directory() {
    assert_eq!(
        staging_path("movie.en.srt", 1, 2, 0).unwrap(),
        ".movie.en.srt.teamy-subs-1-2-0.tmp"
    );
    assert_eq!(
        staging_path("/movie.srt", 1, 2, 15).unwrap(),
        "/.movie.srt.teamy-subs-1-2-15.tmp"
    );
}

fn drive(path: &str, force: bool, events: &[SaveEvent]) -> Vec<SaveAction> {
    let mut state = SaveState::new(force);
    let mut actions = Vec::new();
    for event in events {
        let (next, action) = save_step(path, 7, 99, state, *event).unwrap();
        state = next;
        actions.push(action);
    }
    actions
}

#[test]
fn save_without_force_creates_writes_and_never_renames() {
    let actions = drive(
        "subs/movie.en.srt",
        false,
        &[SaveEvent::Begin, SaveEvent::Opened, SaveEvent::Written],
    );
    assert_eq!(
        actions,
        vec![
            SaveAction::CreateNew("subs/movie.en.srt".to_string()),
            SaveAction::Write("subs/movie.en.srt".to_string()),
            SaveAction::Done,
        ]
    );
    assert_eq!(
        drive("movie.srt", false, &[SaveEvent::Begin, SaveEvent::AlreadyExists]),
        vec![
            SaveAction::CreateNew("movie.srt".to_string()),
            SaveAction::Fail(SaveFailure::Create),
        ]
    );
    assert_eq!(
        drive("movie.srt", false, &[SaveEvent::Begin, SaveEvent::Opened, SaveEvent::WriteFailed]),
        vec![
            SaveAction::CreateNew("movie.srt".to_string()),
            SaveAction::Write("movie.srt".to_string()),
            SaveAction::RemoveThenFail("movie.srt".to_string(), SaveFailure::Write),
        ]
    );
}

#[test]
fn save_with_force_stages_then_renames() {
    let actions = drive(
        "subs/movie.srt",
        true,
        &[
            SaveEvent::Begin,
            SaveEvent::AlreadyExists,
            SaveEvent::Opened,
            SaveEvent::Written,
            SaveEvent::Renamed,
        ],
    );
    assert_eq!(
        actions,
        vec![
            SaveAction::CreateNew("subs/.movie.srt.teamy-subs-7-99-0.tmp".to_string()),
            SaveAction::CreateNew("subs/.movie.srt.teamy-subs-7-99-1.tmp".to_string()),
            SaveAction::Write("subs/.movie.srt.teamy-subs-7-99-1.tmp".to_string()),
            SaveAction::Rename(
                "subs/.movie.srt.teamy-subs-7-99-1.tmp".to_string(),
                "subs/movie.srt".to_string()
            ),
            SaveAction::Done,
        ]
    );
    let failed = drive(
        "movie.srt",
        true,
        &[SaveEvent::Begin, SaveEvent::Opened, SaveEvent::Written, SaveEvent::RenameFailed],
    );
    assert_eq!(
        failed[3],
        SaveAction::RemoveThenFail(
            ".movie.srt.teamy-subs-7-99-0.tmp".to_string(),
            SaveFailure::Replace
        )
    );
    assert_eq!(
        drive("movie.srt", true, &[SaveEvent::Begin, SaveEvent::OpenFailed])[1],
        SaveAction::Fail(SaveFailure::Stage)
    );
}

#[test]
fn save_with_force_gives_up_after_sixteen_names() {
    let mut events = vec![SaveEvent::Begin];
    events.extend(std::iter::repeat(SaveEvent::AlreadyExists).take(16));
    let actions = drive("movie.srt", true, &events);
    assert_eq!(actions.len(), 17);
    assert_eq!(
        actions[15],
        SaveAction::CreateNew(".movie.srt.teamy-subs-7-99-15.tmp".to_string())
    );
    assert_eq!(actions[16], SaveAction::Fail(SaveFailure::NoUnusedName));
    assert_eq!(
        save_step("dir/..", 7, 99, SaveState::new(true), SaveEvent::Begin),
        Err(SubdlError::NoFileName)
    );
}

#[test]
fn stored_lease_is_reused_until_it_expires() {
    let (lease, _name) = store_request("secret-key".to_string(), 15, 1_000).unwrap();
    let entries = vec![None, Some(lease)];
    for now in [1_000, 1_500, 1_899] {
        let selection = select_lease(&entries, now);
        assert_eq!(selection.selected, Some(1));
        assert_eq!(entries[1].as_ref().unwrap().api_key, "secret-key");
    }
    assert_eq!(select_lease(&entries, 1_900).selected, None);
    assert_eq!(select_lease(&entries, 999).selected, None);
}

#[test]
fn present_day_expiries_are_always_written() {
    assert_eq!(lease_expiry_text(1_700_000_000).unwrap(), "2023-11-14T22:13:20+00:00");
    assert!(lease_expiry_text(1_000_000_000_000).is_ok());
    assert!(cleanup_xml("lease", "S-1", "teamy.exe", 1_700_000_000).is_some());
}
