use teamy_subs::extract::{
    build_output_path, extraction_failure_report, ffmpeg_arguments, ffprobe_arguments, media_base_name,
    parse_ffprobe_streams, sanitize_filename_component, sanitize_optional_component,
    stream_output_strategy, ExtractArgs, ExtractError, ExtractionJob, FfprobeError,
    FfprobeStream, FfprobeTags, SubtitleExtractionMode, SubtitleOutputStrategy,
};

#[test]
fn prefers_copy_for_common_text_and_bitmap_codecs() {
    assert_eq!(
        stream_output_strategy(Some("webvtt")),
        SubtitleOutputStrategy {
            extension: "vtt",
            mode: SubtitleExtractionMode::Copy,
        }
    );
    assert_eq!(
        stream_output_strategy(Some("hdmv_pgs_subtitle")),
        SubtitleOutputStrategy {
            extension: "sup",
            mode: SubtitleExtractionMode::Copy,
        }
    );
}

#[test]
fn sanitizes_filename_components() {
    assert_eq!(
        sanitize_filename_component("English (SDH) / Main"),
        "english-sdh-main"
    );
}

#[test]
fn parses_default_ffprobe_stream_listing() {
    let streams = parse_ffprobe_streams(
        "index=2\ncodec_name=webvtt\nTAG:language=eng\nTAG:title=English SDH\n\nindex=4\ncodec_name=subrip\nTAG:language=jpn\n",
    )
    .unwrap();

    assert_eq!(streams.len(), 2);
    assert_eq!(streams[0].index, 2);
    assert_eq!(streams[0].codec_name.as_deref(), Some("webvtt"));
    assert_eq!(streams[0].tags.as_ref().and_then(|tags| tags.language.as_deref()), Some("eng"));
    assert_eq!(streams[0].tags.as_ref().and_then(|tags| tags.title.as_deref()), Some("English SDH"));
    assert_eq!(streams[1].index, 4);
    assert_eq!(streams[1].codec_name.as_deref(), Some("subrip"));
    assert_eq!(streams[1].tags.as_ref().and_then(|tags| tags.language.as_deref()), Some("jpn"));
}

#[test]
fn every_codec_has_its_strategy() {
    let copy = |extension| SubtitleOutputStrategy { extension, mode: SubtitleExtractionMode::Copy };
    assert_eq!(stream_output_strategy(Some("subrip")), copy("srt"));
    assert_eq!(stream_output_strategy(Some("ass")), copy("ass"));
    assert_eq!(stream_output_strategy(Some("ssa")), copy("ssa"));
    assert_eq!(stream_output_strategy(Some("dvd_subtitle")), copy("sub"));
    assert_eq!(stream_output_strategy(Some("xsub")), copy("sub"));
    let encode = SubtitleOutputStrategy { extension: "srt", mode: SubtitleExtractionMode::EncodeSrt };
    assert_eq!(stream_output_strategy(Some("mov_text")), encode);
    assert_eq!(stream_output_strategy(None), encode);
}

#[test]
fn ffprobe_listing_errors() {
    assert_eq!(
        parse_ffprobe_streams("codec_name=webvtt\n"),
        Err(FfprobeError::MissingStreamIndex)
    );
    assert_eq!(
        parse_ffprobe_streams("index=abc\n"),
        Err(FfprobeError::InvalidStreamIndex("abc".to_string()))
    );
    assert_eq!(parse_ffprobe_streams(""), Ok(vec![]));
}

#[test]
fn ffprobe_listing_ignores_unknown_keys_and_empty_values() {
    let streams = parse_ffprobe_streams("  index=3  \ncodec_name=\nnoise\nTAG:title=\nother=1\n").unwrap();
    assert_eq!(
        streams,
        vec![FfprobeStream {
            index: 3,
            codec_name: None,
            tags: Some(FfprobeTags { language: None, title: None }),
        }]
    );
}

#[test]
fn sanitizing_trims_marks_and_empties() {
    assert_eq!(sanitize_filename_component("  --Hello__World..  "), "hello__world");
    assert_eq!(sanitize_filename_component("!!!"), "");
    assert_eq!(sanitize_optional_component("!!!"), None);
    assert_eq!(sanitize_optional_component("Eng"), Some("eng".to_string()));
}

#[test]
fn output_path_names_stream_position_language_and_title() {
    let stream = FfprobeStream {
        index: 2,
        codec_name: Some("webvtt".to_string()),
        tags: Some(FfprobeTags {
            language: Some("eng".to_string()),
            title: Some("English SDH".to_string()),
        }),
    };
    assert_eq!(
        build_output_path("out", "My Movie", 1, &stream, "vtt"),
        "out/my-movie.subtitle-01.eng.english-sdh.vtt"
    );
    let bare = FfprobeStream { index: 5, codec_name: None, tags: None };
    assert_eq!(build_output_path("out/", "x", 12, &bare, "srt"), "out/x.subtitle-12.srt");
}

#[test]
fn media_base_name_is_the_file_stem() {
    assert_eq!(media_base_name("videos/show.mkv"), "show");
    assert_eq!(media_base_name("videos/.."), "subtitle");
}

#[test]
fn jobs_follow_the_listing() {
    let args = ExtractArgs {
        input_file: "in/film.mkv".to_string(),
        output_dir: "subs".to_string(),
    };
    assert_eq!(args.plan_jobs(&[]), Err(ExtractError::NoSubtitleStreams));
    let streams = vec![
        FfprobeStream { index: 2, codec_name: Some("subrip".to_string()), tags: None },
        FfprobeStream { index: 3, codec_name: Some("mov_text".to_string()), tags: None },
    ];
    let jobs = args.plan_jobs(&streams).unwrap();
    assert_eq!(
        jobs,
        vec![
            ExtractionJob {
                stream_index: 2,
                output_path: "subs/film.subtitle-01.srt".to_string(),
                mode: SubtitleExtractionMode::Copy,
            },
            ExtractionJob {
                stream_index: 3,
                output_path: "subs/film.subtitle-02.srt".to_string(),
                mode: SubtitleExtractionMode::EncodeSrt,
            },
        ]
    );
    assert_eq!(
        ffmpeg_arguments("in/film.mkv", &jobs[1]),
        vec!["-y", "-i", "in/film.mkv", "-map", "0:3", "-c:s", "srt", "subs/film.subtitle-02.srt"]
    );
    assert_eq!(
        ffmpeg_arguments("in/film.mkv", &jobs[0])[6],
        "copy"
    );
}

#[test]
fn ffprobe_is_asked_for_subtitle_streams_only() {
    assert_eq!(
        ffprobe_arguments("a.mkv"),
        vec![
            "-v",
            "error",
            "-select_streams",
            "s",
            "-show_entries",
            "stream=index,codec_name:stream_tags=language,title",
            "-of",
            "default=noprint_wrappers=1:nokey=0",
            "a.mkv",
        ]
    );
}

#[test]
fn hostile_names_stay_inside_the_output_directory() {
    let stream = FfprobeStream {
        index: 7,
        codec_name: None,
        tags: Some(FfprobeTags { language: Some("/".to_string()), title: Some("../x".to_string()) }),
    };
    assert_eq!(
        build_output_path("out", "../../etc/passwd", 1, &stream, "srt"),
        "out/etc-passwd.subtitle-01.x.srt"
    );
    assert_eq!(sanitize_filename_component(".."), "");
}

#[test]
fn media_base_name_ignores_trailing_separators() {
    assert_eq!(media_base_name("videos/show.mkv/"), "show");
    assert_eq!(media_base_name("/"), "subtitle");
}

#[test]
fn sanitizing_twice_changes_nothing() {
    for value in ["  Hello, World!.srt ", "--A__b..", "Ünïcode Tïtle", "..", "", "x/y\\z"] {
        let once = sanitize_filename_component(value);
        assert_eq!(sanitize_filename_component(&once), once);
    }
    assert_eq!(sanitize_filename_component("  Hello, World!.srt "), "hello-world-.srt");
}

#[test]
fn failed_streams_are_reported_together() {
    assert_eq!(extraction_failure_report(&[]), None);
    assert_eq!(
        extraction_failure_report(&[(2, "  bad codec \n".to_string()), (5, "oops".to_string())]),
        Some("Failed to extract one or more subtitle streams:\nstream 2: bad codec\nstream 5: oops".to_string())
    );
}
