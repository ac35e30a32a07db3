//! The `extract` command's decisions: reading ffprobe's stream listing,
//! choosing how each subtitle stream is written, and naming the files.
use crate::conversion::{
    ascii_lower, file_name_of, file_name_range, has_file_name, has_file_name_exec, name_stem,
    name_stem_of, path_join,
};
use crate::document::{chars_views, join_lines, split_lines, text_lines};
use crate::text::{
    decimal_digits, find_char, find_char_in, lemma_find_char_props, padded_decimal, parse_unsigned,
    parse_unsigned_in, push_all, push_padded_decimal, slices_equal, str_chars, string_from_chars,
    string_of_range, trim, trim_bounds, trim_end, trim_start,
};
use vstd::prelude::*;
use vstd::string::StringExecFns;

verus! {

/// Extract subtitle streams from a local media container.
#[derive(Debug, Clone, PartialEq, Eq)]
pub struct ExtractArgs {
    /// Media file to inspect.
    pub input_file: String,
    /// Directory where extracted subtitle files should be written.
    pub output_dir: String,
}

/// Tags of one ffprobe stream.
#[derive(Debug, Default, Clone, PartialEq, Eq)]
pub struct FfprobeTags {
    pub language: Option<String>,
    pub title: Option<String>,
}

/// One subtitle stream reported by ffprobe.
#[derive(Debug, Default, Clone, PartialEq, Eq)]
pub struct FfprobeStream {
    pub index: usize,
    pub codec_name: Option<String>,
    pub tags: Option<FfprobeTags>,
}

/// How a stream is written out.
#[derive(Clone, Copy, Debug, Eq, PartialEq, Structural)]
pub enum SubtitleExtractionMode {
    Copy,
    EncodeSrt,
}

/// File extension and extraction mode for a stream.
#[derive(Clone, Copy, Debug, Eq, PartialEq)]
pub struct SubtitleOutputStrategy {
    pub extension: &'static str,
    pub mode: SubtitleExtractionMode,
}

/// Why ffprobe's listing could not be read.
#[derive(Debug, Clone, PartialEq, Eq)]
pub enum FfprobeError {
    /// A stream ended without a non-zero `index`.
    MissingStreamIndex,
    /// An `index` value is not a `usize`.
    InvalidStreamIndex(String),
}

pub struct TagsModel {
    pub language: Option<Seq<char>>,
    pub title: Option<Seq<char>>,
}

pub struct StreamModel {
    pub index: nat,
    pub codec_name: Option<Seq<char>>,
    pub tags: Option<TagsModel>,
}

pub enum ProbeErrorModel {
    MissingStreamIndex,
    InvalidStreamIndex(Seq<char>),
}

/// Streams read so far, the stream being read, and whether it has a field yet.
pub struct ProbeState {
    pub streams: Seq<StreamModel>,
    pub current: StreamModel,
    pub saw_field: bool,
}

pub open spec fn opt_view(o: Option<String>) -> Option<Seq<char>> {
    match o {
        Some(s) => Some(s@),
        None => None,
    }
}

impl View for FfprobeTags {
    type V = TagsModel;

    open spec fn view(&self) -> TagsModel {
        TagsModel { language: opt_view(self.language), title: opt_view(self.title) }
    }
}

impl View for FfprobeStream {
    type V = StreamModel;

    open spec fn view(&self) -> StreamModel {
        StreamModel {
            index: self.index as nat,
            codec_name: opt_view(self.codec_name),
            tags: match self.tags {
                Some(t) => Some(t@),
                None => None,
            },
        }
    }
}

impl View for FfprobeError {
    type V = ProbeErrorModel;

    open spec fn view(&self) -> ProbeErrorModel {
        match self {
            FfprobeError::MissingStreamIndex => ProbeErrorModel::MissingStreamIndex,
            FfprobeError::InvalidStreamIndex(v) => ProbeErrorModel::InvalidStreamIndex(v@),
        }
    }
}

pub open spec fn empty_stream() -> StreamModel {
    StreamModel { index: 0, codec_name: None, tags: None }
}

pub open spec fn streams_view(v: Seq<FfprobeStream>) -> Seq<StreamModel> {
    v.map_values(|s: FfprobeStream| s@)
}

/// Empty values mean "absent".
pub open spec fn non_empty(value: Seq<char>) -> Option<Seq<char>> {
    if value.len() == 0 {
        None
    } else {
        Some(value)
    }
}

pub open spec fn index_key() -> Seq<char> {
    seq!['i', 'n', 'd', 'e', 'x']
}

pub open spec fn codec_key() -> Seq<char> {
    seq!['c', 'o', 'd', 'e', 'c', '_', 'n', 'a', 'm', 'e']
}

pub open spec fn language_key() -> Seq<char> {
    seq!['T', 'A', 'G', ':', 'l', 'a', 'n', 'g', 'u', 'a', 'g', 'e']
}

pub open spec fn title_key() -> Seq<char> {
    seq!['T', 'A', 'G', ':', 't', 'i', 't', 'l', 'e']
}

/// The tags of a stream, created empty when first needed.
pub open spec fn tags_or_default(t: Option<TagsModel>) -> TagsModel {
    match t {
        Some(t) => t,
        None => TagsModel { language: None, title: None },
    }
}

/// Reads one `key=value` field into the stream being read.
pub open spec fn probe_field(cur: StreamModel, key: Seq<char>, value: Seq<char>) -> Result<
    StreamModel,
    ProbeErrorModel,
> {
    if key == index_key() {
        match parse_unsigned(value, usize::MAX as nat) {
            Some(v) => Ok(StreamModel { index: v, ..cur }),
            None => Err(ProbeErrorModel::InvalidStreamIndex(value)),
        }
    } else if key == codec_key() {
        Ok(StreamModel { codec_name: non_empty(value), ..cur })
    } else if key == language_key() {
        Ok(
            StreamModel {
                tags: Some(TagsModel { language: non_empty(value), ..tags_or_default(cur.tags) }),
                ..cur
            },
        )
    } else if key == title_key() {
        Ok(
            StreamModel {
                tags: Some(TagsModel { title: non_empty(value), ..tags_or_default(cur.tags) }),
                ..cur
            },
        )
    } else {
        Ok(cur)
    }
}

/// Each `key=value` field changes only the one field it names, and leaves
/// the others as they were: `index` sets the index (or is refused when the
/// value is not a number), `codec_name` the codec, `TAG:language` the
/// language and `TAG:title` the title (an empty value reads as none); any
/// other key changes nothing. (`non_empty` is the value, or none when it is
/// empty.)
pub proof fn lemma_field_changes_only_its_field(cur: StreamModel, key: Seq<char>, value: Seq<char>)
    ensures
        key == index_key() ==> match probe_field(cur, key, value) {
            Ok(next) => parse_unsigned(value, usize::MAX as nat) == Some(next.index)
                && next.codec_name == cur.codec_name && next.tags == cur.tags,
            Err(e) => parse_unsigned(value, usize::MAX as nat) is None
                && e == ProbeErrorModel::InvalidStreamIndex(value),
        },
        key == codec_key() ==> match probe_field(cur, key, value) {
            Ok(next) => next.index == cur.index && next.tags == cur.tags && next.codec_name
                == non_empty(value),
            Err(_) => false,
        },
        key == language_key() ==> match probe_field(cur, key, value) {
            Ok(next) => next.index == cur.index && next.codec_name == cur.codec_name
                && stream_title(next) == stream_title(cur) && next.tags is Some
                && stream_language(next) == non_empty(value),
            Err(_) => false,
        },
        key == title_key() ==> match probe_field(cur, key, value) {
            Ok(next) => next.index == cur.index && next.codec_name == cur.codec_name
                && stream_language(next) == stream_language(cur) && next.tags is Some
                && stream_title(next) == non_empty(value),
            Err(_) => false,
        },
        key != index_key() && key != codec_key() && key != language_key() && key != title_key()
            ==> probe_field(cur, key, value) == Ok::<StreamModel, ProbeErrorModel>(cur),
{
    assert(index_key() != codec_key() && index_key() != language_key() && index_key()
        != title_key());
    assert(codec_key() != language_key() && codec_key() != title_key());
    assert(language_key() != title_key()) by {
        assert(language_key().len() != title_key().len());
    }
    assert(index_key().len() != codec_key().len());
    assert(index_key().len() != language_key().len());
    assert(index_key().len() != title_key().len());
    assert(codec_key().len() != language_key().len());
    assert(codec_key()[0] != title_key()[0]);
}

/// One line of the listing (trimmed): a blank line ends the stream being
/// read, which must then have a non-zero index; a `key=value` line sets a
/// field; other lines are ignored.
pub open spec fn probe_step(st: ProbeState, raw_line: Seq<char>) -> Result<
    ProbeState,
    ProbeErrorModel,
> {
    let line = trim(raw_line);
    if line.len() == 0 {
        if st.saw_field {
            if st.current.index == 0 {
                Err(ProbeErrorModel::MissingStreamIndex)
            } else {
                Ok(
                    ProbeState {
                        streams: st.streams.push(st.current),
                        current: empty_stream(),
                        saw_field: false,
                    },
                )
            }
        } else {
            Ok(st)
        }
    } else {
        match find_char(line, '=') {
            None => Ok(st),
            Some(i) => match probe_field(
                st.current,
                line.subrange(0, i),
                line.subrange(i + 1, line.len() as int),
            ) {
                Ok(cur) => Ok(ProbeState { current: cur, saw_field: true, ..st }),
                Err(e) => Err(e),
            },
        }
    }
}

/// The end of the listing closes the stream being read, if any.
pub open spec fn probe_finish(st: ProbeState) -> Result<Seq<StreamModel>, ProbeErrorModel> {
    if st.saw_field {
        if st.current.index == 0 {
            Err(ProbeErrorModel::MissingStreamIndex)
        } else {
            Ok(st.streams.push(st.current))
        }
    } else {
        Ok(st.streams)
    }
}

/// The streams of the listing lines, read in order from state `st`.
pub open spec fn probe_lines(lines: Seq<Seq<char>>, st: ProbeState) -> Result<
    Seq<StreamModel>,
    ProbeErrorModel,
>
    decreases lines.len(),
{
    if lines.len() == 0 {
        probe_finish(st)
    } else {
        match probe_step(st, lines[0]) {
            Ok(next) => probe_lines(lines.drop_first(), next),
            Err(e) => Err(e),
        }
    }
}

/// The streams of ffprobe's `default` listing.
pub open spec fn spec_ffprobe_streams(output: Seq<char>) -> Result<
    Seq<StreamModel>,
    ProbeErrorModel,
> {
    probe_lines(
        text_lines(output),
        ProbeState { streams: seq![], current: empty_stream(), saw_field: false },
    )
}

pub open spec fn state_of(streams: Seq<FfprobeStream>, current: FfprobeStream, saw: bool) -> ProbeState {
    ProbeState { streams: streams_view(streams), current: current@, saw_field: saw }
}

fn string_or_none(s: &[char], from: usize, to: usize) -> (res: Option<String>)
    requires
        from <= to <= s@.len(),
    ensures
        opt_view(res) == non_empty(s@.subrange(from as int, to as int)),
{
    if from == to {
        None
    } else {
        Some(string_of_range(s, from, to))
    }
}

/// Applies one `key=value` field of the line `s` (key `s[a..eq]`, value `s[eq+1..b]`).
fn apply_field(current: &mut FfprobeStream, s: &[char], a: usize, eq: usize, b: usize) -> (res:
    Result<(), FfprobeError>)
    requires
        a <= eq < b <= s@.len(),
    ensures
        match probe_field(
            old(current)@,
            s@.subrange(a as int, eq as int),
            s@.subrange(eq + 1, b as int),
        ) {
            Ok(cur) => res is Ok && final(current)@ == cur,
            Err(e) => res matches Err(err) && err@ == e,
        },
{
    let key = vstd::slice::slice_subrange(s, a, eq);
    let index_k = ['i', 'n', 'd', 'e', 'x'];
    let codec_k = ['c', 'o', 'd', 'e', 'c', '_', 'n', 'a', 'm', 'e'];
    let language_k = ['T', 'A', 'G', ':', 'l', 'a', 'n', 'g', 'u', 'a', 'g', 'e'];
    let title_k = ['T', 'A', 'G', ':', 't', 'i', 't', 'l', 'e'];
    assert(index_k@ =~= index_key());
    assert(codec_k@ =~= codec_key());
    assert(language_k@ =~= language_key());
    assert(title_k@ =~= title_key());
    if slices_equal(key, &index_k) {
        match parse_unsigned_in(s, eq + 1, b, usize::MAX as u64) {
            Some(v) => {
                current.index = v as usize;
                Ok(())
            },
            None => Err(FfprobeError::InvalidStreamIndex(string_of_range(s, eq + 1, b))),
        }
    } else if slices_equal(key, &codec_k) {
        current.codec_name = string_or_none(s, eq + 1, b);
        Ok(())
    } else if slices_equal(key, &language_k) {
        let mut tags = match current.tags.take() {
            Some(t) => t,
            None => FfprobeTags { language: None, title: None },
        };
        tags.language = string_or_none(s, eq + 1, b);
        current.tags = Some(tags);
        Ok(())
    } else if slices_equal(key, &title_k) {
        let mut tags = match current.tags.take() {
            Some(t) => t,
            None => FfprobeTags { language: None, title: None },
        };
        tags.title = string_or_none(s, eq + 1, b);
        current.tags = Some(tags);
        Ok(())
    } else {
        Ok(())
    }
}

/// Reads ffprobe's `default=noprint_wrappers=1:nokey=0` stream listing.
pub fn parse_ffprobe_streams(output: &str) -> (res: Result<Vec<FfprobeStream>, FfprobeError>)
    ensures
        match spec_ffprobe_streams(output@) {
            Ok(streams) => res matches Ok(v) && streams_view(v@) == streams,
            Err(e) => res matches Err(err) && err@ == e,
        },
{
    let chars = str_chars(output);
    let lines = split_lines(chars.as_slice());
    let ghost views = chars_views(lines@);
    let mut streams: Vec<FfprobeStream> = Vec::new();
    let mut current = FfprobeStream { index: 0, codec_name: None, tags: None };
    let mut saw_field = false;
    let mut i: usize = 0;
    assert(views.subrange(0, views.len() as int) =~= views);
    assert(streams_view(streams@) =~= Seq::<StreamModel>::empty());
    assert(current@ == empty_stream());
    while i < lines.len()
        invariant
            i <= lines@.len(),
            views == chars_views(lines@),
            views == text_lines(output@),
            probe_lines(views.subrange(i as int, views.len() as int), state_of(streams@, current, saw_field))
                == spec_ffprobe_streams(output@),
        decreases lines@.len() - i,
    {
        let line = lines[i].as_slice();
        let ghost st = state_of(streams@, current, saw_field);
        let ghost rest = views.subrange(i as int, views.len() as int);
        assert(rest[0] == line@);
        assert(rest.drop_first() =~= views.subrange(i + 1, views.len() as int));
        assert(line@.subrange(0, line@.len() as int) =~= line@);
        let (a, b) = trim_bounds(line, 0, line.len());
        if a == b {
            if saw_field {
                if current.index == 0 {
                    return Err(FfprobeError::MissingStreamIndex);
                }
                let ghost before = streams@;
                streams.push(current);
                assert(streams_view(streams@) =~= streams_view(before).push(st.current));
                current = FfprobeStream { index: 0, codec_name: None, tags: None };
                saw_field = false;
            }
        } else {
            proof {
                lemma_find_char_props(line@.subrange(a as int, b as int), '=');
            }
            match find_char_in(line, a, b, '=') {
                None => {},
                Some(eq) => {
                    let ghost t = line@.subrange(a as int, b as int);
                    assert(t.subrange(0, eq - a) =~= line@.subrange(a as int, eq as int));
                    assert(t.subrange(eq - a + 1, t.len() as int) =~= line@.subrange(
                        eq + 1,
                        b as int,
                    ));
                    match apply_field(&mut current, line, a, eq, b) {
                        Ok(()) => {
                            saw_field = true;
                        },
                        Err(e) => {
                            return Err(e);
                        },
                    }
                },
            }
        }
        i += 1;
    }
    assert(views.subrange(i as int, views.len() as int) =~= Seq::<Seq<char>>::empty());
    if saw_field {
        if current.index == 0 {
            return Err(FfprobeError::MissingStreamIndex);
        }
        let ghost before = streams@;
        streams.push(current);
        assert(streams_view(streams@) =~= streams_view(before).push(current@));
    }
    Ok(streams)
}

pub open spec fn strategy_model(codec: Option<Seq<char>>) -> (Seq<char>, SubtitleExtractionMode) {
    match codec {
        Some(c) => if c == seq!['w', 'e', 'b', 'v', 't', 't'] {
            (seq!['v', 't', 't'], SubtitleExtractionMode::Copy)
        } else if c == seq!['s', 'u', 'b', 'r', 'i', 'p'] {
            (seq!['s', 'r', 't'], SubtitleExtractionMode::Copy)
        } else if c == seq!['a', 's', 's'] {
            (seq!['a', 's', 's'], SubtitleExtractionMode::Copy)
        } else if c == seq!['s', 's', 'a'] {
            (seq!['s', 's', 'a'], SubtitleExtractionMode::Copy)
        } else if c == seq![
            'h',
            'd',
            'm',
            'v',
            '_',
            'p',
            'g',
            's',
            '_',
            's',
            'u',
            'b',
            't',
            'i',
            't',
            'l',
            'e',
        ] {
            (seq!['s', 'u', 'p'], SubtitleExtractionMode::Copy)
        } else if c == seq!['d', 'v', 'd', '_', 's', 'u', 'b', 't', 'i', 't', 'l', 'e'] || c
            == seq!['x', 's', 'u', 'b'] {
            (seq!['s', 'u', 'b'], SubtitleExtractionMode::Copy)
        } else {
            (seq!['s', 'r', 't'], SubtitleExtractionMode::EncodeSrt)
        },
        None => (seq!['s', 'r', 't'], SubtitleExtractionMode::EncodeSrt),
    }
}

/// How a stream with this codec is written: known text and bitmap subtitle
/// codecs are copied into a file of their kind, anything else is encoded as SRT.
pub fn stream_output_strategy(codec_name: Option<&str>) -> (res: SubtitleOutputStrategy)
    ensures
        (res.extension@, res.mode) == strategy_model(
            match codec_name {
                Some(c) => Some(c@),
                None => None,
            },
        ),
{
    proof {
        reveal_strlit("vtt");
        reveal_strlit("srt");
        reveal_strlit("ass");
        reveal_strlit("ssa");
        reveal_strlit("sup");
        reveal_strlit("sub");
    }
    let c = match codec_name {
        Some(c) => str_chars(c),
        None => {
            return SubtitleOutputStrategy { extension: "srt", mode: SubtitleExtractionMode::EncodeSrt };
        },
    };
    let c = c.as_slice();
    let webvtt = ['w', 'e', 'b', 'v', 't', 't'];
    let subrip = ['s', 'u', 'b', 'r', 'i', 'p'];
    let ass = ['a', 's', 's'];
    let ssa = ['s', 's', 'a'];
    let pgs = [
        'h',
        'd',
        'm',
        'v',
        '_',
        'p',
        'g',
        's',
        '_',
        's',
        'u',
        'b',
        't',
        'i',
        't',
        'l',
        'e',
    ];
    let dvd = ['d', 'v', 'd', '_', 's', 'u', 'b', 't', 'i', 't', 'l', 'e'];
    let xsub = ['x', 's', 'u', 'b'];
    assert(webvtt@ =~= seq!['w', 'e', 'b', 'v', 't', 't']);
    assert(subrip@ =~= seq!['s', 'u', 'b', 'r', 'i', 'p']);
    assert(ass@ =~= seq!['a', 's', 's']);
    assert(ssa@ =~= seq!['s', 's', 'a']);
    assert(pgs@ =~= seq![
        'h',
        'd',
        'm',
        'v',
        '_',
        'p',
        'g',
        's',
        '_',
        's',
        'u',
        'b',
        't',
        'i',
        't',
        'l',
        'e',
    ]);
    assert(dvd@ =~= seq!['d', 'v', 'd', '_', 's', 'u', 'b', 't', 'i', 't', 'l', 'e']);
    assert(xsub@ =~= seq!['x', 's', 'u', 'b']);
    if slices_equal(c, &webvtt) {
        SubtitleOutputStrategy { extension: "vtt", mode: SubtitleExtractionMode::Copy }
    } else if slices_equal(c, &subrip) {
        SubtitleOutputStrategy { extension: "srt", mode: SubtitleExtractionMode::Copy }
    } else if slices_equal(c, &ass) {
        SubtitleOutputStrategy { extension: "ass", mode: SubtitleExtractionMode::Copy }
    } else if slices_equal(c, &ssa) {
        SubtitleOutputStrategy { extension: "ssa", mode: SubtitleExtractionMode::Copy }
    } else if slices_equal(c, &pgs) {
        SubtitleOutputStrategy { extension: "sup", mode: SubtitleExtractionMode::Copy }
    } else if slices_equal(c, &dvd) || slices_equal(c, &xsub) {
        SubtitleOutputStrategy { extension: "sub", mode: SubtitleExtractionMode::Copy }
    } else {
        SubtitleOutputStrategy { extension: "srt", mode: SubtitleExtractionMode::EncodeSrt }
    }
}


pub open spec fn is_ascii_alnum(c: char) -> bool {
    ('0' <= c && c <= '9') || ('a' <= c && c <= 'z') || ('A' <= c && c <= 'Z')
}

/// `-`, `_` and `.` are kept as they are, and are trimmed from both ends.
pub open spec fn is_mark(c: char) -> bool {
    c == '-' || c == '_' || c == '.'
}

/// Builds a file name part from `s`: ASCII letters and digits (lowercased)
/// and marks are kept; every run of other characters becomes one `-`,
/// except at the start.
pub open spec fn sanitize_scan(s: Seq<char>, acc: Seq<char>, last_sep: bool) -> Seq<char>
    decreases s.len(),
{
    if s.len() == 0 {
        acc
    } else {
        let c = s[0];
        if is_ascii_alnum(c) {
            sanitize_scan(s.drop_first(), acc.push(ascii_lower(c)), false)
        } else if is_mark(c) {
            sanitize_scan(s.drop_first(), acc.push(c), false)
        } else if !last_sep && acc.len() > 0 {
            sanitize_scan(s.drop_first(), acc.push('-'), true)
        } else {
            sanitize_scan(s.drop_first(), acc, last_sep)
        }
    }
}

pub open spec fn trim_marks_start(s: Seq<char>) -> Seq<char>
    decreases s.len(),
{
    if s.len() > 0 && is_mark(s[0]) {
        trim_marks_start(s.drop_first())
    } else {
        s
    }
}

pub open spec fn trim_marks_end(s: Seq<char>) -> Seq<char>
    decreases s.len(),
{
    if s.len() > 0 && is_mark(s.last()) {
        trim_marks_end(s.drop_last())
    } else {
        s
    }
}

/// A text made safe for use in a file name.
pub open spec fn sanitized(value: Seq<char>) -> Seq<char> {
    trim_marks_end(trim_marks_start(sanitize_scan(trim(value), seq![], false)))
}

proof fn lemma_trim_marks_start_skip(s: Seq<char>, i: int)
    requires
        0 <= i <= s.len(),
        forall|j: int| 0 <= j < i ==> is_mark(s[j]),
    ensures
        trim_marks_start(s) == trim_marks_start(s.subrange(i, s.len() as int)),
    decreases i,
{
    if i == 0 {
        assert(s.subrange(0, s.len() as int) =~= s);
    } else {
        assert(s.drop_first().subrange(i - 1, s.len() - 1) =~= s.subrange(i, s.len() as int));
        lemma_trim_marks_start_skip(s.drop_first(), i - 1);
    }
}

proof fn lemma_trim_marks_end_skip(s: Seq<char>, i: int)
    requires
        0 <= i <= s.len(),
        forall|j: int| i <= j < s.len() ==> is_mark(s[j]),
    ensures
        trim_marks_end(s) == trim_marks_end(s.subrange(0, i)),
    decreases s.len() - i,
{
    if i == s.len() {
        assert(s.subrange(0, i) =~= s);
    } else {
        assert(s.drop_last().subrange(0, i) =~= s.subrange(0, i));
        lemma_trim_marks_end_skip(s.drop_last(), i);
    }
}

fn is_mark_char(c: char) -> (res: bool)
    ensures
        res == is_mark(c),
{
    c == '-' || c == '_' || c == '.'
}

/// The characters of a text made safe for use in a file name.
pub fn sanitize_chars(value: &[char]) -> (res: Vec<char>)
    ensures
        res@ == sanitized(value@),
{
    assert(value@.subrange(0, value@.len() as int) =~= value@);
    let (a, b) = trim_bounds(value, 0, value.len());
    let ghost t = value@.subrange(a as int, b as int);
    let mut acc: Vec<char> = Vec::new();
    let mut last_sep = false;
    let mut i = a;
    assert(value@.subrange(a as int, b as int) =~= t);
    while i < b
        invariant
            a <= i <= b <= value@.len(),
            t == value@.subrange(a as int, b as int),
            sanitize_scan(value@.subrange(i as int, b as int), acc@, last_sep) == sanitize_scan(
                t,
                seq![],
                false,
            ),
        decreases b - i,
    {
        let c = value[i];
        assert(value@.subrange(i as int, b as int).drop_first() =~= value@.subrange(
            i + 1,
            b as int,
        ));
        assert(value@.subrange(i as int, b as int)[0] == c);
        if ('0' <= c && c <= '9') || ('a' <= c && c <= 'z') || ('A' <= c && c <= 'Z') {
            let lower = if 'A' <= c && c <= 'Z' {
                ((c as u32) + 32) as u8 as char
            } else {
                c
            };
            assert(lower == ascii_lower(c));
            acc.push(lower);
            last_sep = false;
        } else if is_mark_char(c) {
            acc.push(c);
            last_sep = false;
        } else if !last_sep && acc.len() > 0 {
            acc.push('-');
            last_sep = true;
        }
        i += 1;
    }
    assert(value@.subrange(b as int, b as int) =~= Seq::<char>::empty());
    let scanned = acc.as_slice();
    let n = scanned.len();
    let mut start: usize = 0;
    while start < n && is_mark_char(scanned[start])
        invariant
            start <= n == scanned@.len(),
            forall|j: int| 0 <= j < start ==> is_mark(scanned@[j]),
        decreases n - start,
    {
        start += 1;
    }
    proof {
        lemma_trim_marks_start_skip(scanned@, start as int);
    }
    let mut end = n;
    while end > start && is_mark_char(scanned[end - 1])
        invariant
            start <= end <= n == scanned@.len(),
            forall|j: int| end <= j < n ==> is_mark(scanned@[j]),
        decreases end - start,
    {
        end -= 1;
    }
    proof {
        let rest = scanned@.subrange(start as int, n as int);
        lemma_trim_marks_end_skip(rest, end - start);
        assert(rest.subrange(0, end - start) =~= scanned@.subrange(start as int, end as int));
    }
    crate::text::sub_vec(scanned, start, end)
}

/// Makes a text safe for use in a file name.
pub fn sanitize_filename_component(value: &str) -> (res: String)
    ensures
        res@ == sanitized(value@),
{
    let chars = str_chars(value);
    let out = sanitize_chars(chars.as_slice());
    string_from_chars(out.as_slice())
}

/// The sanitized text, unless it comes out empty.
pub open spec fn sanitized_optional(value: Seq<char>) -> Option<Seq<char>> {
    let s = sanitized(value);
    if s.len() == 0 {
        None
    } else {
        Some(s)
    }
}

/// The sanitized text, unless it comes out empty.
pub fn sanitize_optional_component(value: &str) -> (res: Option<String>)
    ensures
        opt_view(res) == sanitized_optional(value@),
{
    let sanitized = sanitize_filename_component(value);
    if sanitized.as_str().is_empty() {
        None
    } else {
        Some(sanitized)
    }
}

pub open spec fn subtitle_marker() -> Seq<char> {
    seq!['.', 's', 'u', 'b', 't', 'i', 't', 'l', 'e', '-']
}

/// `.part` when a tag sanitizes to something non-empty.
pub open spec fn tag_suffix(tag: Option<Seq<char>>) -> Seq<char> {
    match tag {
        Some(t) => match sanitized_optional(t) {
            Some(p) => seq!['.'] + p,
            None => seq![],
        },
        None => seq![],
    }
}

pub open spec fn stream_language(s: StreamModel) -> Option<Seq<char>> {
    match s.tags {
        Some(t) => t.language,
        None => None,
    }
}

pub open spec fn stream_title(s: StreamModel) -> Option<Seq<char>> {
    match s.tags {
        Some(t) => t.title,
        None => None,
    }
}

/// `<base>.subtitle-<NN>[.<language>][.<title>].<extension>` in the output directory.
pub open spec fn spec_output_path(
    dir: Seq<char>,
    base: Seq<char>,
    position: nat,
    stream: StreamModel,
    extension: Seq<char>,
) -> Seq<char> {
    path_join(
        dir,
        sanitized(base) + subtitle_marker() + padded_decimal(position, 2) + tag_suffix(
            stream_language(stream),
        ) + tag_suffix(stream_title(stream)) + seq!['.'] + extension,
    )
}

/// A character that a sanitized file name part may hold.
pub open spec fn is_name_char(c: char) -> bool {
    ('0' <= c && c <= '9') || ('a' <= c && c <= 'z') || is_mark(c)
}

pub open spec fn all_name_chars(s: Seq<char>) -> bool {
    forall|i: int| 0 <= i < s.len() ==> is_name_char(#[trigger] s[i])
}

proof fn lemma_sanitize_scan_chars(s: Seq<char>, acc: Seq<char>, last_sep: bool)
    requires
        all_name_chars(acc),
    ensures
        all_name_chars(sanitize_scan(s, acc, last_sep)),
    decreases s.len(),
{
    if s.len() > 0 {
        let c = s[0];
        if is_ascii_alnum(c) {
            assert(is_name_char(ascii_lower(c)));
            assert(all_name_chars(acc.push(ascii_lower(c)))) by {
                assert forall|i: int| 0 <= i < acc.len() + 1 implies is_name_char(
                    #[trigger] acc.push(ascii_lower(c))[i],
                ) by {
                    if i < acc.len() {
                        assert(acc.push(ascii_lower(c))[i] == acc[i]);
                    }
                }
            }
            lemma_sanitize_scan_chars(s.drop_first(), acc.push(ascii_lower(c)), false);
        } else if is_mark(c) {
            assert(all_name_chars(acc.push(c))) by {
                assert forall|i: int| 0 <= i < acc.len() + 1 implies is_name_char(
                    #[trigger] acc.push(c)[i],
                ) by {
                    if i < acc.len() {
                        assert(acc.push(c)[i] == acc[i]);
                    }
                }
            }
            lemma_sanitize_scan_chars(s.drop_first(), acc.push(c), false);
        } else if !last_sep && acc.len() > 0 {
            assert(all_name_chars(acc.push('-'))) by {
                assert forall|i: int| 0 <= i < acc.len() + 1 implies is_name_char(
                    #[trigger] acc.push('-')[i],
                ) by {
                    if i < acc.len() {
                        assert(acc.push('-')[i] == acc[i]);
                    }
                }
            }
            lemma_sanitize_scan_chars(s.drop_first(), acc.push('-'), true);
        } else {
            lemma_sanitize_scan_chars(s.drop_first(), acc, last_sep);
        }
    }
}

proof fn lemma_trim_marks_start_props(s: Seq<char>)
    requires
        all_name_chars(s),
    ensures
        all_name_chars(trim_marks_start(s)),
        trim_marks_start(s).len() > 0 ==> !is_mark(trim_marks_start(s)[0]),
    decreases s.len(),
{
    if s.len() > 0 && is_mark(s[0]) {
        assert forall|i: int| 0 <= i < s.drop_first().len() implies is_name_char(
            #[trigger] s.drop_first()[i],
        ) by {
            assert(s.drop_first()[i] == s[i + 1]);
        }
        lemma_trim_marks_start_props(s.drop_first());
    }
}

proof fn lemma_trim_marks_end_props(s: Seq<char>)
    requires
        all_name_chars(s),
        s.len() > 0 ==> !is_mark(s[0]),
    ensures
        all_name_chars(trim_marks_end(s)),
        trim_marks_end(s).len() > 0 ==> !is_mark(trim_marks_end(s)[0]) && !is_mark(
            trim_marks_end(s).last(),
        ),
    decreases s.len(),
{
    if s.len() > 0 && is_mark(s.last()) {
        let d = s.drop_last();
        assert forall|i: int| 0 <= i < d.len() implies is_name_char(#[trigger] d[i]) by {
            assert(d[i] == s[i]);
        }
        if d.len() > 0 {
            assert(d[0] == s[0]);
        }
        lemma_trim_marks_end_props(d);
    }
}

/// A sanitized file name part holds only lowercase ASCII letters, digits,
/// `-`, `_` and `.`, and neither starts nor ends with `-`, `_` or `.`:
/// it never holds a path separator and is never `.` or `..`.
pub proof fn lemma_sanitized_is_plain_name(value: Seq<char>)
    ensures
        all_name_chars(sanitized(value)),
        sanitized(value).len() > 0 ==> !is_mark(sanitized(value)[0]) && !is_mark(
            sanitized(value).last(),
        ),
{
    lemma_sanitize_scan_chars(trim(value), seq![], false);
    let scanned = sanitize_scan(trim(value), seq![], false);
    lemma_trim_marks_start_props(scanned);
    lemma_trim_marks_end_props(trim_marks_start(scanned));
}

proof fn lemma_scan_keeps_name_chars(s: Seq<char>, acc: Seq<char>, last_sep: bool)
    requires
        all_name_chars(s),
    ensures
        sanitize_scan(s, acc, last_sep) == acc + s,
    decreases s.len(),
{
    if s.len() == 0 {
        assert(acc + s =~= acc);
    } else {
        let c = s[0];
        assert(is_name_char(c));
        assert forall|i: int| 0 <= i < s.drop_first().len() implies is_name_char(
            #[trigger] s.drop_first()[i],
        ) by {
            assert(s.drop_first()[i] == s[i + 1]);
        }
        if is_ascii_alnum(c) {
            assert(ascii_lower(c) == c);
        }
        lemma_scan_keeps_name_chars(s.drop_first(), acc.push(c), false);
        assert(acc.push(c) + s.drop_first() =~= acc + s);
    }
}

/// Sanitizing is idempotent: a name that has been sanitized once comes back
/// unchanged when sanitized again.
pub proof fn lemma_sanitize_idempotent(value: Seq<char>)
    ensures
        sanitized(sanitized(value)) == sanitized(value),
{
    let t = sanitized(value);
    lemma_sanitized_is_plain_name(value);
    if t.len() > 0 {
        assert(is_name_char(t[0]));
        assert(is_name_char(t.last()));
        assert(t.last() == t[t.len() - 1]);
    }
    assert(trim_start(t) == t);
    assert(trim_end(t) == t);
    assert(trim(t) == t);
    lemma_scan_keeps_name_chars(t, seq![], false);
    assert(Seq::<char>::empty() + t =~= t);
    assert(trim_marks_start(t) == t);
    assert(trim_marks_end(t) == t);
}

proof fn lemma_tag_suffix_chars(tag: Option<Seq<char>>)
    ensures
        all_name_chars(tag_suffix(tag)),
{
    match tag {
        Some(t) => {
            lemma_sanitized_is_plain_name(t);
            match sanitized_optional(t) {
                Some(p) => {
                    let sfx = seq!['.'] + p;
                    assert forall|i: int| 0 <= i < sfx.len() implies is_name_char(#[trigger] sfx[i]) by {
                        if i > 0 {
                            assert(sfx[i] == p[i - 1]);
                        }
                    }
                },
                None => {},
            }
        },
        None => {},
    }
}

/// Every extracted stream is written directly inside the output directory:
/// its file name holds no `/` and is neither `.` nor `..`, whatever the
/// media name and the stream's tags are (for an extension without `/`).
pub proof fn lemma_output_stays_in_directory(
    dir: Seq<char>,
    base: Seq<char>,
    position: nat,
    stream: StreamModel,
    extension: Seq<char>,
)
    requires
        forall|j: int| 0 <= j < extension.len() ==> extension[j] != '/',
    ensures
        has_file_name(spec_output_path(dir, base, position, stream, extension)),
        spec_output_path(dir, base, position, stream, extension) == path_join(
            dir,
            file_name_of(spec_output_path(dir, base, position, stream, extension)),
        ),
        forall|j: int|
            0 <= j < file_name_of(spec_output_path(dir, base, position, stream, extension)).len()
                ==> file_name_of(spec_output_path(dir, base, position, stream, extension))[j]
                != '/',
{
    let head = sanitized(base) + subtitle_marker() + padded_decimal(position, 2);
    let lang = tag_suffix(stream_language(stream));
    let title = tag_suffix(stream_title(stream));
    let name = head + lang + title + seq!['.'] + extension;
    lemma_sanitized_is_plain_name(base);
    lemma_tag_suffix_chars(stream_language(stream));
    lemma_tag_suffix_chars(stream_title(stream));
    crate::text::lemma_padded_decimal_props(position, 2);
    let digits = padded_decimal(position, 2);
    let s = sanitized(base);
    let m = subtitle_marker();
    assert forall|j: int| 0 <= j < name.len() implies name[j] != '/' by {
        let k1 = s.len() as int;
        let k2 = k1 + m.len();
        let k3 = k2 + digits.len();
        let k4 = k3 + lang.len();
        let k5 = k4 + title.len();
        if j < k1 {
            assert(name[j] == s[j]);
            assert(is_name_char(s[j]));
        } else if j < k2 {
            assert(name[j] == m[j - k1]);
        } else if j < k3 {
            assert(name[j] == digits[j - k2]);
            assert(crate::text::is_ascii_digit(digits[j - k2]));
        } else if j < k4 {
            assert(name[j] == lang[j - k3]);
            assert(is_name_char(lang[j - k3]));
        } else if j < k5 {
            assert(name[j] == title[j - k4]);
            assert(is_name_char(title[j - k4]));
        } else if j == k5 {
            assert(name[j] == '.');
        } else {
            assert(name[j] == extension[j - k5 - 1]);
        }
    }
    let path = spec_output_path(dir, base, position, stream, extension);
    assert(path == path_join(dir, name));
    crate::conversion::lemma_file_name_of_join(dir, name);
    assert(file_name_of(path) == name);
    assert(name.len() >= 10);
    assert(name != seq!['.']);
    assert(name != seq!['.', '.']);
}

fn push_tag_suffix(out: &mut Vec<char>, tag: &Option<String>)
    ensures
        final(out)@ == old(out)@ + tag_suffix(opt_view(*tag)),
{
    match tag {
        Some(t) => match sanitize_optional_component(t.as_str()) {
            Some(part) => {
                out.push('.');
                let chars = str_chars(part.as_str());
                push_all(out, chars.as_slice());
                assert(out@ =~= old(out)@ + tag_suffix(opt_view(*tag)));
            },
            None => {},
        },
        None => {},
    }
}

/// The file that one extracted stream is written to.
pub fn build_output_path(
    output_dir: &str,
    base_name: &str,
    position: usize,
    stream: &FfprobeStream,
    extension: &str,
) -> (res: String)
    ensures
        res@ == spec_output_path(output_dir@, base_name@, position as nat, stream@, extension@),
{
    let dir = str_chars(output_dir);
    let mut name: Vec<char> = Vec::new();
    let base = str_chars(base_name);
    let sanitized_base = sanitize_chars(base.as_slice());
    push_all(&mut name, sanitized_base.as_slice());
    let marker = ['.', 's', 'u', 'b', 't', 'i', 't', 'l', 'e', '-'];
    assert(marker@ =~= subtitle_marker());
    push_all(&mut name, &marker);
    push_padded_decimal(position as u64, 2, &mut name);
    let no_tag: Option<String> = None;
    let language = match &stream.tags {
        Some(t) => &t.language,
        None => &no_tag,
    };
    push_tag_suffix(&mut name, language);
    let title = match &stream.tags {
        Some(t) => &t.title,
        None => &no_tag,
    };
    push_tag_suffix(&mut name, title);
    name.push('.');
    let ext = str_chars(extension);
    push_all(&mut name, ext.as_slice());
    let mut path: Vec<char> = Vec::new();
    push_all(&mut path, dir.as_slice());
    if dir.len() > 0 && dir[dir.len() - 1] != '/' {
        path.push('/');
    }
    push_all(&mut path, name.as_slice());
    assert(path@ =~= spec_output_path(
        output_dir@,
        base_name@,
        position as nat,
        stream@,
        extension@,
    ));
    string_from_chars(path.as_slice())
}

pub open spec fn default_base_name() -> Seq<char> {
    seq!['s', 'u', 'b', 't', 'i', 't', 'l', 'e']
}

/// The input's file stem, or `subtitle` when it has no file name.
pub open spec fn spec_media_base_name(input: Seq<char>) -> Seq<char> {
    if has_file_name(input) {
        name_stem(file_name_of(input))
    } else {
        default_base_name()
    }
}


/// The input's file stem, or `subtitle` when it has no file name.
pub fn media_base_name(input_file: &str) -> (res: String)
    ensures
        res@ == spec_media_base_name(input_file@),
{
    let input = str_chars(input_file);
    if has_file_name_exec(input.as_slice()) {
        let (start, end) = file_name_range(input.as_slice());
        let name = vstd::slice::slice_subrange(input.as_slice(), start, end);
        let stem = name_stem_of(name);
        string_from_chars(stem.as_slice())
    } else {
        proof {
            reveal_strlit("subtitle");
        }
        let res = String::from_str("subtitle");
        assert(res@ =~= default_base_name());
        res
    }
}

/// One ffmpeg run: which stream, to which file, copied or encoded.
#[derive(Debug, Clone, PartialEq, Eq)]
pub struct ExtractionJob {
    pub stream_index: usize,
    pub output_path: String,
    pub mode: SubtitleExtractionMode,
}

/// Why extraction cannot start.
#[derive(Debug, Clone, Copy, PartialEq, Eq, Structural)]
pub enum ExtractError {
    /// ffprobe listed no subtitle streams.
    NoSubtitleStreams,
}

/// The job for the stream at `position` (counting from 1).
pub open spec fn spec_job(
    dir: Seq<char>,
    base: Seq<char>,
    position: nat,
    stream: StreamModel,
) -> (nat, Seq<char>, SubtitleExtractionMode) {
    let (extension, mode) = strategy_model(stream.codec_name);
    (stream.index, spec_output_path(dir, base, position, stream, extension), mode)
}

pub open spec fn job_view(j: ExtractionJob) -> (nat, Seq<char>, SubtitleExtractionMode) {
    (j.stream_index as nat, j.output_path@, j.mode)
}

impl ExtractArgs {
    /// One job per listed stream, in listing order, numbered from 1.
    pub fn plan_jobs(&self, streams: &[FfprobeStream]) -> (res: Result<
        Vec<ExtractionJob>,
        ExtractError,
    >)
        ensures
            streams@.len() == 0 <==> res is Err,
            res matches Ok(jobs) ==> jobs@.len() == streams@.len() && forall|k: int|
                0 <= k < jobs@.len() ==> job_view(#[trigger] jobs@[k]) == spec_job(
                    self.output_dir@,
                    spec_media_base_name(self.input_file@),
                    (k + 1) as nat,
                    streams@[k]@,
                ),
    {
        if streams.len() == 0 {
            return Err(ExtractError::NoSubtitleStreams);
        }
        let base = media_base_name(self.input_file.as_str());
        let mut jobs: Vec<ExtractionJob> = Vec::new();
        let mut k: usize = 0;
        while k < streams.len()
            invariant
                k <= streams@.len(),
                base@ == spec_media_base_name(self.input_file@),
                jobs@.len() == k,
                forall|j: int|
                    0 <= j < k ==> job_view(#[trigger] jobs@[j]) == spec_job(
                        self.output_dir@,
                        base@,
                        (j + 1) as nat,
                        streams@[j]@,
                    ),
            decreases streams@.len() - k,
        {
            let stream = &streams[k];
            let codec = match &stream.codec_name {
                Some(c) => Some(c.as_str()),
                None => None,
            };
            let strategy = stream_output_strategy(codec);
            let output_path = build_output_path(
                self.output_dir.as_str(),
                base.as_str(),
                k + 1,
                stream,
                strategy.extension,
            );
            jobs.push(ExtractionJob { stream_index: stream.index, output_path, mode: strategy.mode });
            k += 1;
        }
        Ok(jobs)
    }
}

/// The ffmpeg arguments of a job: overwrite, read the input, select the
/// stream, copy it or encode it as SRT, and write the output file.
pub open spec fn spec_ffmpeg_arguments(input: Seq<char>, job: (nat, Seq<char>, SubtitleExtractionMode)) -> Seq<
    Seq<char>,
> {
    seq![
        seq!['-', 'y'],
        seq!['-', 'i'],
        input,
        seq!['-', 'm', 'a', 'p'],
        seq!['0', ':'] + crate::text::decimal_digits(job.0),
        seq!['-', 'c', ':', 's'],
        match job.2 {
            SubtitleExtractionMode::Copy => seq!['c', 'o', 'p', 'y'],
            SubtitleExtractionMode::EncodeSrt => seq!['s', 'r', 't'],
        },
        job.1,
    ]
}

fn owned(lit: &[char]) -> (res: String)
    ensures
        res@ == lit@,
{
    string_from_chars(lit)
}

/// The ffmpeg arguments of a job.
pub fn ffmpeg_arguments(input_file: &str, job: &ExtractionJob) -> (res: Vec<String>)
    ensures
        crate::text::strings_view(res@) == spec_ffmpeg_arguments(input_file@, job_view(*job)),
{
    let dash_y = ['-', 'y'];
    let dash_i = ['-', 'i'];
    let dash_map = ['-', 'm', 'a', 'p'];
    let dash_cs = ['-', 'c', ':', 's'];
    let copy = ['c', 'o', 'p', 'y'];
    let srt = ['s', 'r', 't'];
    assert(dash_y@ =~= seq!['-', 'y']);
    assert(dash_i@ =~= seq!['-', 'i']);
    assert(dash_map@ =~= seq!['-', 'm', 'a', 'p']);
    assert(dash_cs@ =~= seq!['-', 'c', ':', 's']);
    assert(copy@ =~= seq!['c', 'o', 'p', 'y']);
    assert(srt@ =~= seq!['s', 'r', 't']);
    let mut args: Vec<String> = Vec::new();
    args.push(owned(&dash_y));
    args.push(owned(&dash_i));
    args.push(String::from_str(input_file));
    args.push(owned(&dash_map));
    let mut map: Vec<char> = Vec::new();
    map.push('0');
    map.push(':');
    crate::text::push_decimal(job.stream_index as u64, &mut map);
    assert(map@ =~= seq!['0', ':'] + crate::text::decimal_digits(job.stream_index as nat));
    args.push(string_from_chars(map.as_slice()));
    args.push(owned(&dash_cs));
    match job.mode {
        SubtitleExtractionMode::Copy => args.push(owned(&copy)),
        SubtitleExtractionMode::EncodeSrt => args.push(owned(&srt)),
    }
    args.push(job.output_path.clone());
    assert(crate::text::strings_view(args@) =~= spec_ffmpeg_arguments(input_file@, job_view(*job)));
    args
}

/// The ffprobe arguments that list a file's subtitle streams: their index,
/// codec and language and title tags, one `key=value` per line, with a
/// blank line between streams.
pub open spec fn spec_ffprobe_arguments(input: Seq<char>) -> Seq<Seq<char>> {
    seq![
        "-v"@,
        "error"@,
        "-select_streams"@,
        "s"@,
        "-show_entries"@,
        "stream=index,codec_name:stream_tags=language,title"@,
        "-of"@,
        "default=noprint_wrappers=1:nokey=0"@,
        input,
    ]
}

/// The ffprobe arguments that list a file's subtitle streams.
pub fn ffprobe_arguments(input_file: &str) -> (res: Vec<String>)
    ensures
        crate::text::strings_view(res@) == spec_ffprobe_arguments(input_file@),
{
    let mut args: Vec<String> = Vec::new();
    args.push(String::from_str("-v"));
    args.push(String::from_str("error"));
    args.push(String::from_str("-select_streams"));
    args.push(String::from_str("s"));
    args.push(String::from_str("-show_entries"));
    args.push(String::from_str("stream=index,codec_name:stream_tags=language,title"));
    args.push(String::from_str("-of"));
    args.push(String::from_str("default=noprint_wrappers=1:nokey=0"));
    args.push(String::from_str(input_file));
    assert(crate::text::strings_view(args@) =~= spec_ffprobe_arguments(input_file@));
    args
}

/// The first line of the report of failed extractions.
pub open spec fn failure_header() -> Seq<char> {
    "Failed to extract one or more subtitle streams:\n"@
}

/// One failed stream: its index and what ffmpeg wrote to its error output,
/// trimmed.
pub open spec fn failure_line(failure: (usize, Seq<char>)) -> Seq<char> {
    seq!['s', 't', 'r', 'e', 'a', 'm', ' '] + decimal_digits(failure.0 as nat) + seq![':', ' ']
        + trim(failure.1)
}

/// After every job has run: nothing when none failed, otherwise the
/// header and one line for each failed stream, in order.
pub open spec fn failure_report(failures: Seq<(usize, Seq<char>)>) -> Option<Seq<char>> {
    if failures.len() == 0 {
        None
    } else {
        Some(failure_header() + join_lines(failures.map_values(|f: (usize, Seq<char>)| failure_line(f))))
    }
}

pub open spec fn failures_view(failures: Seq<(usize, String)>) -> Seq<(usize, Seq<char>)> {
    failures.map_values(|f: (usize, String)| (f.0, f.1@))
}

/// The error that ends an extraction in which some streams failed, given
/// each failed stream's index and ffmpeg's error output; `None` when every
/// stream was extracted.
pub fn extraction_failure_report(failures: &[(usize, String)]) -> (res: Option<String>)
    ensures
        opt_view(res) == failure_report(failures_view(failures@)),
{
    if failures.len() == 0 {
        return None;
    }
    let ghost lines = failures_view(failures@).map_values(|f: (usize, Seq<char>)| failure_line(f));
    let mut out = str_chars("Failed to extract one or more subtitle streams:\n");
    let ghost header = out@;
    let mut i: usize = 0;
    while i < failures.len()
        invariant
            i <= failures@.len(),
            failures@.len() > 0,
            header == failure_header(),
            lines == failures_view(failures@).map_values(|f: (usize, Seq<char>)| failure_line(f)),
            out@ == header + join_lines(lines.subrange(0, i as int)),
        decreases failures@.len() - i,
    {
        let ghost before = out@;
        if i > 0 {
            out.push('\n');
        }
        let word = ['s', 't', 'r', 'e', 'a', 'm', ' '];
        push_all(&mut out, &word);
        crate::text::push_decimal(failures[i].0 as u64, &mut out);
        out.push(':');
        out.push(' ');
        let message = str_chars(failures[i].1.as_str());
        let (a, b) = trim_bounds(message.as_slice(), 0, message.len());
        assert(message@.subrange(0, message@.len() as int) =~= message@);
        let kept = vstd::slice::slice_subrange(message.as_slice(), a, b);
        push_all(&mut out, kept);
        let ghost line = failure_line(failures_view(failures@)[i as int]);
        assert(line == lines[i as int]);
        assert(word@ =~= seq!['s', 't', 'r', 'e', 'a', 'm', ' ']);
        let ghost part = lines.subrange(0, i + 1);
        assert(part.drop_last() =~= lines.subrange(0, i as int));
        if i > 0 {
            assert(out@ =~= before + seq!['\n'] + line);
        } else {
            assert(part =~= seq![line]);
            assert(out@ =~= before + line);
        }
        i += 1;
    }
    assert(lines.subrange(0, failures@.len() as int) =~= lines);
    Some(string_from_chars(out.as_slice()))
}

} // verus!
