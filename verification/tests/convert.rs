use std::str::FromStr;
use teamy_subs::conversion::{
    infer_output_format, lowercase_extension, resolve_output_path, ConversionKind, ConvertArgs,
    ConvertError,
};
use teamy_subs::fallback::{convert_vtt_content_to_text_fallback, FallbackError};
use teamy_subs::webvtt::{
    convert_vtt_to_text, deduplicated_text, fits_vtt_number_limit, normalize_vtt, VttConvertError,
};

fn payloads_of(content: &str) -> Vec<String> {
    vtt::WebVtt::from_str(content)
        .unwrap()
        .cues
        .into_iter()
        .map(|cue| cue.payload)
        .collect()
}

#[test]
fn convert_cli_lowercases_extensions() {
    let extension = lowercase_extension("movie.VTT").unwrap();
    assert_eq!(extension, "vtt");
}

#[test]
fn convert_cli_converts_basic_vtt_to_text() {
    let content =
        "WEBVTT\n\n00:00:00.000 --> 00:00:01.000\nHello\n\n00:00:01.000 --> 00:00:02.000\nworld\n";
    assert!(fits_vtt_number_limit(content));
    let output = convert_vtt_to_text(content).unwrap();
    assert_eq!(output, "Hello\nworld");
}

#[test]
fn infers_output_filename_from_input_for_bare_format() {
    let output = resolve_output_path("clips/ahoy.vtt", "txt").unwrap();
    assert_eq!(output, "ahoy.txt");
}

#[test]
fn infers_output_filename_inside_parent_directory_for_bare_format() {
    let output = resolve_output_path("clips/ahoy.vtt", "exports/txt").unwrap();
    assert_eq!(output, "exports/ahoy.txt");
}

#[test]
fn keeps_explicit_output_filename() {
    let output = resolve_output_path("clips/ahoy.vtt", "exports/final.txt").unwrap();
    assert_eq!(output, "exports/final.txt");
}

#[test]
fn convert_cli_removes_overlapping_lines_between_cues() {
    let payloads = payloads_of(
        "WEBVTT\n\n00:00:00.000 --> 00:00:01.000\nhello\nworld\n\n00:00:01.000 --> 00:00:02.000\nworld\nagain\n",
    );
    assert_eq!(deduplicated_text(&payloads), "hello\nworld\nagain");
}

#[test]
fn convert_cli_removes_character_level_overlap_between_cues() {
    let payloads = payloads_of(
        "WEBVTT\n\n00:00:00.000 --> 00:00:01.000\nhel\n\n00:00:01.000 --> 00:00:02.000\nhello\n",
    );
    assert_eq!(deduplicated_text(&payloads), "hello");
}

#[test]
fn convert_cli_strips_timed_cue_payload_markup_like_the_fork() {
    let payloads = payloads_of(
        "WEBVTT\n\n00:00:00.000 --> 00:00:02.000\nwhen<00:00:00.199><c> I</c><00:00:00.280><c> started</c>\n",
    );
    assert_eq!(deduplicated_text(&payloads), "when I started");
}

#[test]
fn convert_cli_does_not_insert_separator_when_cues_already_have_spacing() {
    let payloads = payloads_of(
        "WEBVTT\n\n00:00:00.000 --> 00:00:01.000\nHello \n\n00:00:01.000 --> 00:00:02.000\nworld\n",
    );
    assert_eq!(deduplicated_text(&payloads), "Hello world");
}

#[test]
fn blank_line_after_timing_falls_back_to_the_line_reader() {
    let content = "WEBVTT\n\n00:00:07.200 --> 00:00:09.190\n\nhello<00:00:07.919><c> everyone</c>\n\n00:00:09.190 --> 00:00:09.200\nhello everyone\n";
    assert!(normalize_vtt(content).is_err());
    assert_eq!(
        convert_vtt_to_text(content).unwrap(),
        convert_vtt_content_to_text_fallback(content).unwrap()
    );
    assert_eq!(convert_vtt_to_text(content).unwrap(), "hello everyone");
}

#[test]
fn converts_real_ytdlp_sample_with_blank_lines_between_timing_and_payload() {
    let content = "WEBVTT\nKind: captions\nLanguage: en\n\n00:00:07.200 --> 00:00:09.190 align:start position:0%\n\nhello<00:00:07.919><c> everyone</c>\n\n00:00:09.190 --> 00:00:09.200 align:start position:0%\nhello everyone\n";
    assert!(fits_vtt_number_limit(content));
    let output = convert_vtt_to_text(content).unwrap();
    assert_eq!(output, "hello everyone");
}

#[test]
fn fallback_handles_note_blocks() {
    let text = convert_vtt_content_to_text_fallback(
        "WEBVTT\n\nNOTE language: en\nGenerated by something\n\n00:00:00.000 --> 00:00:01.000\nHello\n\n00:00:01.000 --> 00:00:02.000\nworld\n",
    )
    .unwrap();

    assert_eq!(text, "Hello\nworld");
}

#[test]
fn fallback_handles_identifier_cues() {
    let text = convert_vtt_content_to_text_fallback(
        "WEBVTT\n\nabc123\n00:00:00.000 --> 00:00:01.000\nHello\n",
    )
    .unwrap();

    assert_eq!(text, "Hello");
}

#[test]
fn fallback_rejects_text_without_header() {
    assert_eq!(
        convert_vtt_content_to_text_fallback("00:00:00.000 --> 00:00:01.000\nHello\n"),
        Err(FallbackError::InvalidFormat)
    );
}

#[test]
fn fallback_accepts_bom_and_crlf_and_skips_style_blocks() {
    let text = convert_vtt_content_to_text_fallback(
        "\u{feff}WEBVTT\r\n\r\nSTYLE\r\n::cue { color: red }\r\n\r\n00:00:00.000 --> 00:00:01.000\r\nHi\r\n",
    )
    .unwrap();
    assert_eq!(text, "Hi");
}

#[test]
fn conversion_without_header_is_invalid_format() {
    assert_eq!(
        convert_vtt_to_text("just some words\n"),
        Err(VttConvertError::InvalidFormat)
    );
}

#[test]
fn normalize_rejects_what_the_crate_rejects() {
    assert!(normalize_vtt("not a subtitle").is_err());
    let normalized =
        normalize_vtt("WEBVTT\n\n00:00:00.000 --> 00:00:01.000\nHello\n").unwrap();
    assert_eq!(normalized, "WEBVTT\n\n00:00:00.000 --> 00:00:01.000\nHello");
}

#[test]
fn normalize_writes_header_metadata_and_cues() {
    let normalized = normalize_vtt(
        "WEBVTT  Title \nKind: captions\n\n1\n00:01.000 --> 00:02.500 align:start\n  Hi  \n\n\n00:03.000 --> 00:04.000\nBye\n",
    )
    .unwrap();
    assert_eq!(
        normalized,
        "WEBVTT Title\nKind: captions\n\n1\n00:00:01.000 --> 00:00:02.500 align:start\nHi\n00:00:03.000 --> 00:00:04.000\nBye"
    );
    let two = normalize_vtt("WEBVTT\nA: 1\nB: 2\n\n00:00.000 --> 00:01.000\nx\n").unwrap();
    assert!(
        two == "WEBVTT\nA: 1\nB: 2\n\n00:00:00.000 --> 00:00:01.000\nx"
            || two == "WEBVTT\nB: 2\nA: 1\n\n00:00:00.000 --> 00:00:01.000\nx"
    );
}

#[test]
fn digit_runs_past_the_limit_are_reported() {
    assert!(fits_vtt_number_limit("WEBVTT 1000000000001"));
    assert!(fits_vtt_number_limit(
        "WEBVTT\n\n1000000000001:00.000 --> 00:01.000\n99999999999999999999\n"
    ));
    assert!(!fits_vtt_number_limit(
        "WEBVTT\n\n1000000000000000:00:00.000 --> 00:01.000\nx\n"
    ));
    assert!(!fits_vtt_number_limit(
        "WEBVTT\r\n\r\n00:00.000 --> 5124095576030432:00:00.000 align:start\r\nx\r\n"
    ));
    assert!(fits_vtt_number_limit(
        "WEBVTT\n\nx --> 5124095576030432:00:00.000\ny\n"
    ));
    assert!(fits_vtt_number_limit("WEBVTT\n\n00:00.000 --> 00:01.99999999999999\nx\n"));
    let long = "WEBVTT\n\n99999999999999999999:00.000 --> 00:01.000\nhello\n";
    assert!(fits_vtt_number_limit(long));
    assert_eq!(convert_vtt_to_text(long).unwrap(), "hello");
}

#[test]
fn bare_format_detection() {
    assert_eq!(infer_output_format("txt"), Some("txt"));
    assert_eq!(infer_output_format("out/vtt"), Some("vtt"));
    assert_eq!(infer_output_format("final.txt"), None);
}

#[test]
fn bare_format_output_swaps_only_the_last_extension() {
    assert_eq!(resolve_output_path("a/b/show.en.vtt", "vtt").unwrap(), "show.en.vtt");
    assert_eq!(resolve_output_path("a/b/show.en.vtt", "out/txt").unwrap(), "out/show.en.txt");
    assert_eq!(
        resolve_output_path("a/..", "txt"),
        Err(ConvertError::NoFileStem("a/..".to_string()))
    );
}

#[test]
fn extensionless_paths_are_refused() {
    assert_eq!(
        lowercase_extension("README"),
        Err(ConvertError::NoFileExtension("README".to_string()))
    );
    assert_eq!(
        lowercase_extension(".vtt"),
        Err(ConvertError::NoFileExtension(".vtt".to_string()))
    );
}

#[test]
fn plans_pick_the_conversion_by_extension() {
    let plan = ConvertArgs {
        input_file: "clips/ahoy.VTT".to_string(),
        output_file: "txt".to_string(),
    }
    .plan()
    .unwrap();
    assert_eq!(plan.output_file, "ahoy.txt");
    assert_eq!(plan.kind, ConversionKind::VttToText);

    let plan = ConvertArgs {
        input_file: "a.vtt".to_string(),
        output_file: "b.vtt".to_string(),
    }
    .plan()
    .unwrap();
    assert_eq!(plan.kind, ConversionKind::VttToVtt);

    assert_eq!(
        ConvertArgs {
            input_file: "a.srt".to_string(),
            output_file: "b.txt".to_string(),
        }
        .plan(),
        Err(ConvertError::Unsupported {
            from: "srt".to_string(),
            to: "txt".to_string(),
        })
    );
}

#[test]
fn trailing_separators_and_dot_parts_do_not_hide_the_file_name() {
    assert_eq!(resolve_output_path("clips/ahoy.vtt/", "exports/txt/").unwrap(), "exports/ahoy.txt");
    assert_eq!(resolve_output_path("clips/ahoy.vtt/.", "txt").unwrap(), "ahoy.txt");
    assert_eq!(resolve_output_path("clips/ahoy.vtt", "/txt").unwrap(), "/ahoy.txt");
    assert_eq!(resolve_output_path("clips/ahoy.vtt", "exports//txt").unwrap(), "exports/ahoy.txt");
    assert_eq!(lowercase_extension("movie.VTT/.").unwrap(), "vtt");
    assert_eq!(
        resolve_output_path("/", "txt"),
        Err(ConvertError::NoFileStem("/".to_string()))
    );
}
