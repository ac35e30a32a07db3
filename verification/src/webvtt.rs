//! Reading WebVTT through the `vtt` crate, and the conversions built on it:
//! `.vtt -> .txt` (with the line-based reader as fallback) and `.vtt -> .vtt`.
use crate::document::{chars_views, deduplicated, push_deduplicated, split_lines, text_lines};
use crate::fallback::{convert_vtt_content_to_text_fallback, spec_fallback_text, FallbackError};
use crate::payload::{cue_payload_plain_text, spec_payload_plain_text};
use crate::text::{
    before_char, find_char, find_char_in, find_seq, find_seq_in, is_ws, parse_unsigned,
    parse_unsigned_in, str_chars, string_from_chars, strings_view, trim, trim_bounds,
};
use vstd::multiset::Multiset;
use vstd::prelude::*;

verus! {

/// The error kinds of `vtt::VttParseError`.
#[derive(Debug, Clone, PartialEq, Eq)]
pub enum WebVttParseError {
    InvalidFormat,
    InvalidHours,
    InvalidMinutes,
    InvalidSeconds,
    InvalidMilliseconds,
    InvalidSetting(String),
    MissingHeader,
    InvalidMetadataLine(String),
}

#[verifier::external_type_specification]
#[verifier::external_body]
pub struct ExWebVtt(vtt::WebVtt);

/// What `vtt::WebVtt::from_str` makes of a text, as plain values: `None`
/// when it reports an error, otherwise the parts of the parsed document that
/// `webvtt_document_parts` lists.
pub uninterp spec fn webvtt_text_parts(content: Seq<char>) -> Option<
    (Seq<Seq<char>>, Seq<char>, Multiset<Seq<char>>, Seq<char>),
>;

/// What a `vtt::WebVtt` document holds, as plain values: the `payload` of
/// each cue in order; its header line (`WEBVTT`, then a space and the
/// description when there is one); one `key: value` line for each metadata
/// entry; and its cues as `Display` writes them, one after another with a
/// line break (not an empty line) between two.
pub uninterp spec fn webvtt_document_parts(document: vtt::WebVtt) -> (
    Seq<Seq<char>>,
    Seq<char>,
    Multiset<Seq<char>>,
    Seq<char>,
);

/// The payload of each cue that `vtt::WebVtt::from_str` finds in a text, in
/// file order, or `None` when it reports an error.
pub open spec fn webvtt_cue_payloads(content: Seq<char>) -> Option<Seq<Seq<char>>> {
    match webvtt_text_parts(content) {
        Some(parts) => Some(parts.0),
        None => None,
    }
}

/// The word that opens every WebVTT header line.
pub open spec fn webvtt_word() -> Seq<char> {
    seq!['W', 'E', 'B', 'V', 'T', 'T']
}

/// A header line as `Display` writes it: the word alone, or the word, a
/// space and a description (which may be empty).
pub open spec fn is_header_line(line: Seq<char>) -> bool {
    line == webvtt_word() || (line.len() >= 7 && line.subrange(0, 7) == webvtt_word() + seq![' '])
}

/// Lines, each followed by a line break.
pub open spec fn terminated_lines(lines: Seq<Seq<char>>) -> Seq<char>
    decreases lines.len(),
{
    if lines.len() == 0 {
        seq![]
    } else {
        terminated_lines(lines.drop_last()) + lines.last() + seq!['\n']
    }
}

/// A rendered document: the header line, the metadata lines, an empty line,
/// then the cues.
pub open spec fn rendered_webvtt(header: Seq<char>, metadata: Seq<Seq<char>>, cues: Seq<char>) -> Seq<
    char,
> {
    header + seq!['\n'] + terminated_lines(metadata) + seq!['\n'] + cues
}

/// A text that renders document parts: a header line, then the metadata
/// lines in some order, each of them once, an empty line and the cues.
pub open spec fn renders_parts(
    text: Seq<char>,
    parts: (Seq<Seq<char>>, Seq<char>, Multiset<Seq<char>>, Seq<char>),
) -> bool {
    &&& is_header_line(parts.1)
    &&& exists|metadata: Seq<Seq<char>>|
        #![trigger metadata.to_multiset()]
        metadata.to_multiset() == parts.2 && text == rendered_webvtt(parts.1, metadata, parts.3)
}

/// `str::parse::<u64>`.
pub open spec fn vtt_u64(s: Seq<char>) -> Option<nat> {
    parse_unsigned(s, u64::MAX as nat)
}

/// Millisecond text as the `vtt` crate reads it: shorter than three
/// characters, it is padded with trailing zeros to three.
pub open spec fn vtt_millis_text(m: Seq<char>) -> Seq<char> {
    if m.len() == 0 {
        seq!['0', '0', '0']
    } else if m.len() == 1 {
        m + seq!['0', '0']
    } else if m.len() == 2 {
        m + seq!['0']
    } else {
        m
    }
}

/// Seconds and milliseconds of `SS` or `SS.mmm` as the `vtt` crate reads
/// them, or `None` where it reports an error.
pub open spec fn vtt_seconds_ms(s: Seq<char>) -> Option<(nat, nat)> {
    match find_char(s, '.') {
        Some(d) => match vtt_u64(s.subrange(0, d)) {
            None => None,
            Some(seconds) => match vtt_u64(vtt_millis_text(s.subrange(d + 1, s.len() as int))) {
                None => None,
                Some(millis) => Some((seconds, millis)),
            },
        },
        None => match vtt_u64(s) {
            None => None,
            Some(seconds) => Some((seconds, 0)),
        },
    }
}

/// The milliseconds that `vtt::VttTimestamp::from_str` adds up for a
/// timestamp text, in exact arithmetic, or `None` where it reports an error:
/// split at `:`, three or more parts are hours, minutes and seconds (later
/// parts ignored), two parts minutes and seconds.
pub open spec fn vtt_timestamp_total(t: Seq<char>) -> Option<nat> {
    match find_char(t, ':') {
        None => None,
        Some(c1) => {
            let first = t.subrange(0, c1);
            let rest = t.subrange(c1 + 1, t.len() as int);
            match find_char(rest, ':') {
                None => match (vtt_u64(first), vtt_seconds_ms(rest)) {
                    (Some(minutes), Some((seconds, millis))) => Some(
                        minutes * 60_000 + seconds * 1_000 + millis,
                    ),
                    _ => None,
                },
                Some(c2) => {
                    let second = rest.subrange(0, c2);
                    let third = before_char(rest.subrange(c2 + 1, rest.len() as int), ':');
                    match (vtt_u64(first), vtt_u64(second), vtt_seconds_ms(third)) {
                        (Some(hours), Some(minutes), Some((seconds, millis))) => Some(
                            hours * 3_600_000 + minutes * 60_000 + seconds * 1_000 + millis,
                        ),
                        _ => None,
                    }
                },
            }
        },
    }
}

/// The `vtt` crate adds up a timestamp past `u64::MAX`: its unchecked
/// arithmetic overflows.
pub open spec fn vtt_timestamp_overflows(t: Seq<char>) -> bool {
    vtt_timestamp_total(t) matches Some(total) && total > u64::MAX
}

/// The arrow that marks a cue timing line.
pub open spec fn timing_arrow() -> Seq<char> {
    seq!['-', '-', '>']
}

/// `s` up to its first whitespace character.
pub open spec fn first_word(s: Seq<char>) -> Seq<char>
    decreases s.len(),
{
    if s.len() == 0 || is_ws(s[0]) {
        seq![]
    } else {
        seq![s[0]] + first_word(s.drop_first())
    }
}

/// Reading `line` as a cue timing line overflows in the `vtt` crate: the
/// line splits at `-->` into exactly two parts; the start (the first part,
/// trimmed) overflows, or it is read without error and the end (the first
/// word of the second part) overflows.
pub open spec fn timing_line_overflows(line: Seq<char>) -> bool {
    match find_seq(line, timing_arrow()) {
        None => false,
        Some(i) => {
            let after = line.subrange(i + 3, line.len() as int);
            let start = trim(line.subrange(0, i));
            let rest = trim(after);
            &&& find_seq(after, timing_arrow()) is None
            &&& (vtt_timestamp_overflows(start) || (vtt_timestamp_total(start) matches Some(total)
                && total <= u64::MAX && rest.len() > 0 && vtt_timestamp_overflows(
                first_word(rest),
            )))
        },
    }
}

/// No line of `s` (as `str::lines` splits it) overflows when the `vtt`
/// crate reads it as a timing line. The crate reads timing lines only among
/// the lines that hold `-->`; this is stated of all of them, so a header or
/// payload line holding `-->` and an overflowing timestamp is refused too.
pub open spec fn timing_lines_fit(s: Seq<char>) -> bool {
    forall|k: int| 0 <= k < text_lines(s).len() ==> !timing_line_overflows(#[trigger] text_lines(s)[k])
}

/// `vtt::WebVtt::from_str`. Claims: the result is `Ok` exactly when
/// `webvtt_text_parts` has a value, and that value is what the document
/// holds. Which error variant comes back is not stated. The crate computes
/// timestamps with unchecked `u64` arithmetic, so the text is required to
/// hold no timing line on which that arithmetic overflows.
#[verifier::external_body]
fn parse_webvtt(content: &str) -> (res: Result<vtt::WebVtt, WebVttParseError>)
    requires
        timing_lines_fit(content@),
    ensures
        match res {
            Ok(document) => webvtt_text_parts(content@) == Some(webvtt_document_parts(document)),
            Err(_) => webvtt_text_parts(content@) is None,
        },
{
    match content.parse::<vtt::WebVtt>() {
        Ok(document) => Ok(document),
        Err(error) => Err(match error {
            vtt::VttParseError::InvalidFormat => WebVttParseError::InvalidFormat,
            vtt::VttParseError::InvalidHours => WebVttParseError::InvalidHours,
            vtt::VttParseError::InvalidMinutes => WebVttParseError::InvalidMinutes,
            vtt::VttParseError::InvalidSeconds => WebVttParseError::InvalidSeconds,
            vtt::VttParseError::InvalidMilliseconds => WebVttParseError::InvalidMilliseconds,
            vtt::VttParseError::InvalidSetting(s) => WebVttParseError::InvalidSetting(s),
            vtt::VttParseError::MissingHeader => WebVttParseError::MissingHeader,
            vtt::VttParseError::InvalidMetadataLine(s) => WebVttParseError::InvalidMetadataLine(s),
        }),
    }
}

/// The `payload` field of each of a document's `cues`, in order. Claims:
/// these are the payloads that `webvtt_document_parts` lists.
#[verifier::external_body]
fn document_payloads(document: &vtt::WebVtt) -> (res: Vec<String>)
    ensures
        strings_view(res@) == webvtt_document_parts(*document).0,
{
    document.cues.iter().map(|cue| cue.payload.clone()).collect()
}

/// The `Display` rendering of a document (`ToString::to_string`). Claims:
/// the header line, one line for each metadata entry, an empty line, then
/// the cues, as `webvtt_document_parts` lists them; the header line is
/// `WEBVTT`, alone or followed by a space and the description. The order of
/// the metadata lines is left open: they come from a `HashMap`, walked in
/// an order that can differ from run to run.
#[verifier::external_body]
fn render_webvtt(document: &vtt::WebVtt) -> (res: String)
    ensures
        renders_parts(res@, webvtt_document_parts(*document)),
{
    document.to_string()
}

/// `str::parse::<u64>` of `s[from..to]`.
fn parse_u64_in(s: &[char], from: usize, to: usize) -> (res: Option<u64>)
    requires
        from <= to <= s@.len(),
    ensures
        match res {
            Some(v) => vtt_u64(s@.subrange(from as int, to as int)) == Some(v as nat),
            None => vtt_u64(s@.subrange(from as int, to as int)) is None,
        },
{
    parse_unsigned_in(s, from, to, u64::MAX)
}

/// Seconds and milliseconds of `s[from..to]`, as the `vtt` crate reads them.
fn vtt_seconds_ms_in(s: &[char], from: usize, to: usize) -> (res: Option<(u64, u64)>)
    requires
        from <= to <= s@.len(),
    ensures
        match res {
            Some((a, b)) => vtt_seconds_ms(s@.subrange(from as int, to as int)) == Some(
                (a as nat, b as nat),
            ),
            None => vtt_seconds_ms(s@.subrange(from as int, to as int)) is None,
        },
{
    let ghost sub = s@.subrange(from as int, to as int);
    match find_char_in(s, from, to, '.') {
        None => match parse_u64_in(s, from, to) {
            None => None,
            Some(v) => Some((v, 0)),
        },
        Some(dot) => {
            assert(sub.subrange(0, dot - from) =~= s@.subrange(from as int, dot as int));
            let seconds = match parse_u64_in(s, from, dot) {
                None => return None,
                Some(v) => v,
            };
            let ghost m = sub.subrange(dot - from + 1, sub.len() as int);
            assert(m =~= s@.subrange(dot + 1, to as int));
            let millis = if to - (dot + 1) < 3 {
                let mut padded: Vec<char> = crate::text::sub_vec(s, dot + 1, to);
                while padded.len() < 3
                    invariant
                        padded@.len() <= 3,
                        m.len() < 3,
                        padded@.len() >= m.len(),
                        padded@.subrange(0, m.len() as int) == m,
                        forall|q: int| m.len() <= q < padded@.len() ==> padded@[q] == '0',
                    decreases 3 - padded@.len(),
                {
                    padded.push('0');
                }
                assert(padded@ =~= vtt_millis_text(m));
                assert(padded@.subrange(0, 3) =~= padded@);
                parse_u64_in(padded.as_slice(), 0, 3)
            } else {
                assert(vtt_millis_text(m) == m);
                parse_u64_in(s, dot + 1, to)
            };
            match millis {
                None => None,
                Some(ms) => Some((seconds, ms)),
            }
        },
    }
}

/// The milliseconds that the `vtt` crate adds up for `s[from..to]`, exactly.
fn vtt_timestamp_total_in(s: &[char], from: usize, to: usize) -> (res: Option<u128>)
    requires
        from <= to <= s@.len(),
    ensures
        match res {
            Some(v) => vtt_timestamp_total(s@.subrange(from as int, to as int)) == Some(v as nat),
            None => vtt_timestamp_total(s@.subrange(from as int, to as int)) is None,
        },
{
    let ghost t = s@.subrange(from as int, to as int);
    let c1 = match find_char_in(s, from, to, ':') {
        None => return None,
        Some(c) => c,
    };
    assert(t.subrange(0, c1 - from) =~= s@.subrange(from as int, c1 as int));
    let ghost rest = t.subrange(c1 - from + 1, t.len() as int);
    assert(rest =~= s@.subrange(c1 + 1, to as int));
    match find_char_in(s, c1 + 1, to, ':') {
        None => {
            let minutes = match parse_u64_in(s, from, c1) {
                None => return None,
                Some(v) => v,
            };
            match vtt_seconds_ms_in(s, c1 + 1, to) {
                None => None,
                Some((seconds, millis)) => Some(
                    minutes as u128 * 60_000 + seconds as u128 * 1_000 + millis as u128,
                ),
            }
        },
        Some(c2) => {
            assert(rest.subrange(0, c2 - c1 - 1) =~= s@.subrange(c1 + 1, c2 as int));
            let ghost rest2 = rest.subrange(c2 - c1, rest.len() as int);
            assert(rest2 =~= s@.subrange(c2 + 1, to as int));
            let end3 = match find_char_in(s, c2 + 1, to, ':') {
                None => to,
                Some(c3) => c3,
            };
            proof {
                crate::text::lemma_find_char_props(rest2, ':');
            }
            assert(before_char(rest2, ':') =~= s@.subrange(c2 + 1, end3 as int));
            let hours = match parse_u64_in(s, from, c1) {
                None => return None,
                Some(v) => v,
            };
            let minutes = match parse_u64_in(s, c1 + 1, c2) {
                None => return None,
                Some(v) => v,
            };
            match vtt_seconds_ms_in(s, c2 + 1, end3) {
                None => None,
                Some((seconds, millis)) => Some(
                    hours as u128 * 3_600_000 + minutes as u128 * 60_000 + seconds as u128 * 1_000
                        + millis as u128,
                ),
            }
        },
    }
}

/// Whether the `vtt` crate's arithmetic overflows on `s[from..to]`.
fn timestamp_overflows_in(s: &[char], from: usize, to: usize) -> (res: bool)
    requires
        from <= to <= s@.len(),
    ensures
        res == vtt_timestamp_overflows(s@.subrange(from as int, to as int)),
{
    match vtt_timestamp_total_in(s, from, to) {
        Some(total) => total > u64::MAX as u128,
        None => false,
    }
}

/// The end of the first word of `s[from..to]`.
fn first_word_end(s: &[char], from: usize, to: usize) -> (res: usize)
    requires
        from <= to <= s@.len(),
    ensures
        from <= res <= to,
        first_word(s@.subrange(from as int, to as int)) == s@.subrange(from as int, res as int),
    decreases to - from,
{
    if from == to || crate::text::is_whitespace_char(s[from]) {
        assert(s@.subrange(from as int, from as int) =~= Seq::<char>::empty());
        from
    } else {
        let end = first_word_end(s, from + 1, to);
        let ghost sub = s@.subrange(from as int, to as int);
        assert(sub.drop_first() =~= s@.subrange(from + 1, to as int));
        assert(seq![s@[from as int]] + s@.subrange(from + 1, end as int) =~= s@.subrange(
            from as int,
            end as int,
        ));
        end
    }
}

/// Whether reading `line` as a timing line overflows in the `vtt` crate.
fn timing_line_overflows_exec(line: &[char]) -> (res: bool)
    ensures
        res == timing_line_overflows(line@),
{
    let n = line.len();
    let arrow = ['-', '-', '>'];
    assert(arrow@ =~= timing_arrow());
    assert(line@.subrange(0, n as int) =~= line@);
    let i = match find_seq_in(line, 0, n, &arrow) {
        None => return false,
        Some(i) => i,
    };
    let ghost after = line@.subrange(i + 3, n as int);
    if find_seq_in(line, i + 3, n, &arrow).is_some() {
        return false;
    }
    let (a, b) = trim_bounds(line, 0, i);
    if timestamp_overflows_in(line, a, b) {
        return true;
    }
    let start_ok = match vtt_timestamp_total_in(line, a, b) {
        Some(_) => true,
        None => false,
    };
    if !start_ok {
        return false;
    }
    let (c, d) = trim_bounds(line, i + 3, n);
    if c == d {
        return false;
    }
    let e = first_word_end(line, c, d);
    assert(trim(after).subrange(0, (e - c) as int) =~= line@.subrange(c as int, e as int));
    timestamp_overflows_in(line, c, e)
}

/// Whether the `vtt` crate can read every timing line of a text without its
/// timestamp arithmetic overflowing.
pub fn fits_vtt_number_limit(content: &str) -> (res: bool)
    ensures
        res == timing_lines_fit(content@),
{
    let chars = str_chars(content);
    let lines = split_lines(chars.as_slice());
    let mut k: usize = 0;
    while k < lines.len()
        invariant
            chars@ == content@,
            chars_views(lines@) == text_lines(content@),
            k <= lines@.len(),
            forall|q: int| 0 <= q < k ==> !timing_line_overflows(#[trigger] text_lines(content@)[q]),
        decreases lines@.len() - k,
    {
        assert(lines@[k as int]@ == text_lines(content@)[k as int]);
        if timing_line_overflows_exec(lines[k].as_slice()) {
            return false;
        }
        k += 1;
    }
    true
}

/// Why a WebVTT text could not be converted.
#[derive(Debug, Clone, PartialEq, Eq)]
pub enum VttConvertError {
    /// The line-based reader found no `WEBVTT` header.
    InvalidFormat,
    /// The `vtt` crate rejected the text.
    Parse(WebVttParseError),
}

/// The readable text of cue payloads: each payload's plain text, joined with
/// overlap removal.
pub open spec fn payloads_text(payloads: Seq<Seq<char>>) -> Seq<char> {
    deduplicated(payloads.map_values(|p: Seq<char>| spec_payload_plain_text(p)))
}

/// Readable text of the cues of a parsed WebVTT document.
pub fn deduplicated_text(payloads: &[String]) -> (res: String)
    ensures
        res@ == payloads_text(payloads@.map_values(|p: String| p@)),
{
    let ghost views = payloads@.map_values(|p: String| p@).map_values(
        |p: Seq<char>| spec_payload_plain_text(p),
    );
    let mut result: Vec<char> = Vec::new();
    let mut i: usize = 0;
    while i < payloads.len()
        invariant
            i <= payloads@.len(),
            views == payloads@.map_values(|p: String| p@).map_values(
                |p: Seq<char>| spec_payload_plain_text(p),
            ),
            result@ == deduplicated(views.subrange(0, i as int)),
        decreases payloads@.len() - i,
    {
        assert(views.subrange(0, i + 1).drop_last() =~= views.subrange(0, i as int));
        let cue_text = cue_payload_plain_text(payloads[i].as_str());
        let chars = str_chars(cue_text.as_str());
        push_deduplicated(&mut result, chars.as_slice());
        i += 1;
    }
    assert(views.subrange(0, payloads@.len() as int) =~= views);
    string_from_chars(result.as_slice())
}

/// The readable text of WebVTT content: the cues that the `vtt` crate finds,
/// or, when it rejects the text, those of the line-based reader.
pub open spec fn spec_vtt_to_text(content: Seq<char>) -> Result<Seq<char>, FallbackError> {
    match webvtt_cue_payloads(content) {
        Some(payloads) => Ok(payloads_text(payloads)),
        None => spec_fallback_text(content),
    }
}

/// Converts WebVTT content to readable, deduplicated text.
pub fn convert_vtt_to_text(content: &str) -> (res: Result<String, VttConvertError>)
    requires
        timing_lines_fit(content@),
    ensures
        match res {
            Ok(text) => spec_vtt_to_text(content@) == Ok::<Seq<char>, FallbackError>(text@),
            Err(e) => e == VttConvertError::InvalidFormat && spec_vtt_to_text(content@) == Err::<
                Seq<char>,
                FallbackError,
            >(FallbackError::InvalidFormat),
        },
{
    match parse_webvtt(content) {
        Ok(document) => {
            let payloads = document_payloads(&document);
            Ok(deduplicated_text(payloads.as_slice()))
        },
        Err(_) => match convert_vtt_content_to_text_fallback(content) {
            Ok(text) => Ok(text),
            Err(FallbackError::InvalidFormat) => Err(VttConvertError::InvalidFormat),
        },
    }
}

/// Re-renders WebVTT content in the `vtt` crate's normalized form: the
/// header line, the metadata lines (in an order that is left open), an
/// empty line, then the cues that the crate found, each as it writes them,
/// with a line break between two.
pub fn normalize_vtt(content: &str) -> (res: Result<String, VttConvertError>)
    requires
        timing_lines_fit(content@),
    ensures
        match res {
            Ok(text) => webvtt_text_parts(content@) matches Some(parts) && renders_parts(
                text@,
                parts,
            ),
            Err(e) => webvtt_text_parts(content@) is None && e is Parse,
        },
{
    match parse_webvtt(content) {
        Err(e) => Err(VttConvertError::Parse(e)),
        Ok(document) => Ok(render_webvtt(&document)),
    }
}

} // verus!
