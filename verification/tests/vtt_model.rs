use std::str::FromStr;
use teamy_subs::document::{
    deduplicated_chars, longest_char_boundary_overlap, should_insert_separator, split_lines, TxtDocument, TxtLine,
    VttBlock, VttCue, VttCuePayload, VttCuePayloadLine, VttCueSetting, VttCueTiming, VttDocument,
    VttHeader, VttMetadataEntry,
};
use teamy_subs::payload::{cue_payload_plain_text, parse_payload_fragments, VttCueFragment};
use teamy_subs::timestamp::{VttTimestamp, VttTimestampParseError};

fn chars(s: &str) -> Vec<char> {
    s.chars().collect()
}

#[test]
fn parses_full_webvtt_timestamp() {
    let timestamp = VttTimestamp::from_str("01:23:45.678").unwrap();
    assert_eq!(timestamp.total_millis(), 5_025_678);
    assert_eq!(timestamp.to_string(), "01:23:45.678");
}

#[test]
fn parses_short_webvtt_timestamp() {
    let timestamp = VttTimestamp::from_str("23:45.67").unwrap();
    assert_eq!(timestamp.total_millis(), 1_425_670);
    assert_eq!(timestamp.to_string(), "00:23:45.670");
}

#[test]
fn shapes_can_model_vtt_and_txt_documents() {
    let document = VttDocument {
        header: VttHeader {
            description: Some("Sample".to_string()),
            metadata: vec![VttMetadataEntry {
                key: "Language".to_string(),
                value: "en".to_string(),
            }],
        },
        blocks: vec![VttBlock::Cue(VttCue {
            identifier: Some("cue-1".to_string()),
            timing: VttCueTiming {
                start: VttTimestamp::from_total_millis(0),
                end: VttTimestamp::from_total_millis(2_000),
                settings: vec![VttCueSetting {
                    key: "align".to_string(),
                    value: "middle".to_string(),
                }],
            },
            payload: VttCuePayload {
                lines: vec![VttCuePayloadLine {
                    fragments: vec![VttCueFragment::Text("Hello".to_string())],
                }],
            },
        })],
    };

    let txt = TxtDocument {
        lines: vec![TxtLine {
            timestamp: Some(VttTimestamp::from_total_millis(0)),
            text: "Hello".to_string(),
        }],
    };

    assert_eq!(document.blocks.len(), 1);
    assert_eq!(txt.lines.len(), 1);
}

#[test]
fn payload_plain_text_strips_timed_markup() {
    assert_eq!(
        cue_payload_plain_text("when<00:00:00.199><c> I</c><00:00:00.280><c> started</c>"),
        "when I started"
    );
}

#[test]
fn txt_document_from_cues_deduplicates_overlap() {
    let txt = TxtDocument::from_cue_texts(&["hello", "hello world", "world again"]);
    assert_eq!(txt.to_plain_text(), "hello world again");
}

#[test]
fn timestamp_display_pads_every_field() {
    assert_eq!(VttTimestamp::from_total_millis(0).to_string(), "00:00:00.000");
    assert_eq!(VttTimestamp::from_total_millis(3_723_004).to_string(), "01:02:03.004");
    assert_eq!(VttTimestamp::from_total_millis(360_000_000).to_string(), "100:00:00.000");
}

#[test]
fn timestamp_text_parses_back_to_the_same_value() {
    for millis in [0_u64, 1, 999, 1_000, 59_999, 3_599_999, 3_600_000, 5_025_678, 987_654_321] {
        let text = VttTimestamp::from_total_millis(millis).to_string();
        assert_eq!(VttTimestamp::parse(&text).unwrap().total_millis(), millis);
    }
}

#[test]
fn timestamp_without_fraction_and_long_fraction() {
    assert_eq!(VttTimestamp::parse("01:02").unwrap().total_millis(), 62_000);
    assert_eq!(VttTimestamp::parse("00:00:01.23456").unwrap().total_millis(), 1_234);
    assert_eq!(VttTimestamp::parse("00:01.5").unwrap().total_millis(), 1_500);
}

#[test]
fn timestamp_errors_name_the_bad_field() {
    assert_eq!(VttTimestamp::parse("12"), Err(VttTimestampParseError::InvalidFormat));
    assert_eq!(VttTimestamp::parse("x:00:00.000"), Err(VttTimestampParseError::InvalidHours));
    assert_eq!(VttTimestamp::parse("00:x:00.000"), Err(VttTimestampParseError::InvalidMinutes));
    assert_eq!(VttTimestamp::parse("x:00.000"), Err(VttTimestampParseError::InvalidMinutes));
    assert_eq!(VttTimestamp::parse("00:x.000"), Err(VttTimestampParseError::InvalidSeconds));
    assert_eq!(VttTimestamp::parse("00:01."), Err(VttTimestampParseError::InvalidMilliseconds));
    assert_eq!(VttTimestamp::parse("00:01.a"), Err(VttTimestampParseError::InvalidMilliseconds));
}

#[test]
fn timestamp_error_messages() {
    assert_eq!(VttTimestampParseError::InvalidFormat.to_string(), "invalid timestamp format");
    assert_eq!(VttTimestampParseError::InvalidHours.to_string(), "invalid hours");
    assert_eq!(VttTimestampParseError::InvalidMinutes.to_string(), "invalid minutes");
    assert_eq!(VttTimestampParseError::InvalidSeconds.to_string(), "invalid seconds");
    assert_eq!(
        VttTimestampParseError::InvalidMilliseconds.to_string(),
        "invalid milliseconds"
    );
}

#[test]
fn payload_fragments_keep_timestamps_and_tags() {
    let fragments = parse_payload_fragments("a<00:00:01.500><c> b</c><i>c");
    assert_eq!(
        fragments,
        vec![
            VttCueFragment::Text("a".to_string()),
            VttCueFragment::TimestampedText {
                timestamp: VttTimestamp::from_total_millis(1_500),
                text: " b".to_string(),
            },
            VttCueFragment::Text("<".to_string()),
            VttCueFragment::Text("i>c".to_string()),
        ]
    );
    assert_eq!(cue_payload_plain_text("a<00:00:01.500><c> b</c><i>c"), "a b<i>c");
}

#[test]
fn payload_timestamp_without_class_span_and_unclosed_tags() {
    assert_eq!(
        parse_payload_fragments("x<00:01.000>y"),
        vec![
            VttCueFragment::Text("x".to_string()),
            VttCueFragment::TimestampedText {
                timestamp: VttTimestamp::from_total_millis(1_000),
                text: String::new(),
            },
            VttCueFragment::Text("y".to_string()),
        ]
    );
    assert_eq!(
        parse_payload_fragments("x<unclosed"),
        vec![
            VttCueFragment::Text("x".to_string()),
            VttCueFragment::Text("<unclosed".to_string()),
        ]
    );
    assert_eq!(cue_payload_plain_text("a<b"), "a<b");
    assert_eq!(
        parse_payload_fragments("<00:00:01.000><c> open"),
        vec![VttCueFragment::Text("<c> open".to_string())]
    );
}

#[test]
fn payload_without_markup_is_its_own_plain_text() {
    assert_eq!(cue_payload_plain_text("plain words"), "plain words");
    assert_eq!(cue_payload_plain_text(""), "");
}

#[test]
fn overlap_is_the_longest_shared_boundary() {
    assert_eq!(longest_char_boundary_overlap(&chars("hello wor"), &chars("world")), 3);
    assert_eq!(longest_char_boundary_overlap(&chars("abc"), &chars("xyz")), 0);
    assert_eq!(longest_char_boundary_overlap(&chars("hel"), &chars("hello")), 3);
}

#[test]
fn separator_only_between_two_non_space_ends() {
    assert!(should_insert_separator(&chars("Hello"), &chars("world")));
    assert!(!should_insert_separator(&chars("Hello "), &chars("world")));
    assert!(!should_insert_separator(&chars("Hello"), &chars(" world")));
    assert!(!should_insert_separator(&chars(""), &chars("world")));
}

#[test]
fn repeating_a_cue_adds_nothing() {
    let once = TxtDocument::from_cue_texts(&["same words"]);
    let twice = TxtDocument::from_cue_texts(&["same words", "same words"]);
    assert_eq!(once.to_plain_text(), twice.to_plain_text());
}

#[test]
fn deduplicated_text_ends_with_the_last_cue() {
    let txt = TxtDocument::from_cue_texts(&["one two", "three"]);
    assert!(txt.to_plain_text().ends_with("three"));
    assert_eq!(txt.to_plain_text(), "one two\nthree");
}

#[test]
fn txt_lines_drop_carriage_returns_and_join_back() {
    let txt = TxtDocument::from_cue_texts(&["a\r\nb"]);
    assert_eq!(txt.lines.len(), 2);
    assert_eq!(txt.lines[0].text, "a");
    assert_eq!(txt.lines[1].text, "b");
    assert_eq!(txt.to_plain_text(), "a\nb");
    let lines = split_lines(&chars("x\ny"));
    assert_eq!(lines, vec![chars("x"), chars("y")]);
}

#[test]
fn earlier_output_is_kept_when_cues_are_added() {
    let first = TxtDocument::from_cue_texts(&["good morning"]).to_plain_text();
    let more = TxtDocument::from_cue_texts(&["good morning", "morning all", "bye"]).to_plain_text();
    assert!(more.starts_with(&first));
    assert_eq!(more, "good morning all\nbye");
}

#[test]
fn lines_join_back_to_the_text() {
    let text = "first line\nsecond line\n\nfourth";
    let txt = TxtDocument::from_cue_texts(&[text]);
    assert_eq!(txt.to_plain_text(), text);
}

#[test]
fn deduplicated_text_reads_back_through_txt_lines() {
    let cues = ["one two", "two three\nfour", "", "four five"];
    let plain: String = deduplicated_chars(&cues.iter().map(|c| chars(c)).collect::<Vec<_>>())
        .into_iter()
        .collect();
    assert_eq!(TxtDocument::from_cue_texts(&cues).to_plain_text(), plain);
    assert_eq!(plain, "one two three\nfour five");
}
