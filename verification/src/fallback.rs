//! A tolerant WebVTT-to-text reader: after the `WEBVTT` line it skips
//! `NOTE`/`STYLE`/`REGION` blocks, finds cues by their `-->` timing line
//! (with or without an identifier line before it) and collects their payload
//! text, then joins the cue texts with overlap removal.
use crate::document::{
    chars_views, deduplicated, deduplicated_chars, join_lines, push_deduplicated, split_lines,
    text_lines,
};
use crate::payload::{
    cue_payload_plain_text, lemma_plain_payload_reads_as_itself, spec_payload_plain_text,
};
use crate::text::{
    contains_chars, contains_seq, is_blank, is_blank_in, is_ws, occurs_at, range_equals, range_starts_with,
    skip_ws_backward, skip_ws_forward, starts_with, str_chars, string_from_chars, trim,
    trim_bounds, trim_end, trim_start,
};
use vstd::prelude::*;

verus! {

/// Why a text could not be read as WebVTT.
#[derive(Debug, Clone, Copy, PartialEq, Eq, Structural)]
pub enum FallbackError {
    /// The text is empty or its first line does not begin with `WEBVTT`.
    InvalidFormat,
}

pub open spec fn arrow() -> Seq<char> {
    seq!['-', '-', '>']
}

pub open spec fn webvtt_word() -> Seq<char> {
    seq!['W', 'E', 'B', 'V', 'T', 'T']
}

pub open spec fn style_word() -> Seq<char> {
    seq!['S', 'T', 'Y', 'L', 'E']
}

pub open spec fn region_word() -> Seq<char> {
    seq!['R', 'E', 'G', 'I', 'O', 'N']
}

pub open spec fn note_word() -> Seq<char> {
    seq!['N', 'O', 'T', 'E']
}

/// `\r\n` pairs become `\n`, scanning from the left.
pub open spec fn replace_crlf(s: Seq<char>) -> Seq<char>
    decreases s.len(),
{
    if s.len() == 0 {
        s
    } else if s.len() >= 2 && s[0] == '\r' && s[1] == '\n' {
        seq!['\n'] + replace_crlf(s.subrange(2, s.len() as int))
    } else {
        seq![s[0]] + replace_crlf(s.drop_first())
    }
}

/// Every remaining `\r` becomes `\n`.
pub open spec fn replace_cr(s: Seq<char>) -> Seq<char> {
    s.map_values(|c: char| if c == '\r' { '\n' } else { c })
}

/// Line endings unified to `\n`.
pub open spec fn normalized_line_endings(s: Seq<char>) -> Seq<char> {
    replace_cr(replace_crlf(s))
}

/// `line` without a leading byte order mark.
pub open spec fn without_bom(line: Seq<char>) -> Seq<char> {
    if line.len() > 0 && line[0] == '\u{feff}' {
        line.drop_first()
    } else {
        line
    }
}

/// A cue timing line holds `-->`.
pub open spec fn is_timing_line(line: Seq<char>) -> bool {
    contains_seq(line, arrow())
}

/// A line that opens a `STYLE`, `REGION` or `NOTE` block.
pub open spec fn is_block_header(line: Seq<char>) -> bool {
    let t = trim(line);
    t == style_word() || t == region_word() || starts_with(t, note_word())
}

/// The first line at or after `index` that is blank (or the end).
pub open spec fn skip_filled(lines: Seq<Seq<char>>, index: int) -> int
    decreases lines.len() - index,
{
    if 0 <= index < lines.len() && !is_blank(lines[index]) {
        skip_filled(lines, index + 1)
    } else {
        index
    }
}

/// The first line at or after `index` that is not blank (or the end).
pub open spec fn skip_blank(lines: Seq<Seq<char>>, index: int) -> int
    decreases lines.len() - index,
{
    if 0 <= index < lines.len() && is_blank(lines[index]) {
        skip_blank(lines, index + 1)
    } else {
        index
    }
}

/// A cue's payload lines from `index` on, and the index where the cue ends.
/// Payload stops at a block header or timing line; a run of blank lines
/// ends it when what follows is the end, a block header, a timing line, or
/// an identifier line before a timing line, and is otherwise kept as one
/// empty payload line per blank line. Lines are kept without trailing
/// whitespace.
pub open spec fn collect_payload(lines: Seq<Seq<char>>, index: int) -> (Seq<Seq<char>>, int)
    decreases lines.len() - index,
{
    if index < 0 || index >= lines.len() {
        (seq![], index)
    } else {
        let cur = lines[index];
        if is_block_header(cur) || is_timing_line(cur) {
            (seq![], index)
        } else if is_blank(cur) {
            let next = skip_blank(lines, index);
            if next >= lines.len() || is_block_header(lines[next]) || is_timing_line(lines[next]) || (
            next + 1 < lines.len() && is_timing_line(lines[next + 1])) {
                (seq![], next)
            } else {
                let (rest, end) = collect_payload(lines, index + 1);
                (seq![seq![]] + rest, end)
            }
        } else {
            let (rest, end) = collect_payload(lines, index + 1);
            (seq![trim_end(cur)] + rest, end)
        }
    }
}

/// The first line at or after `index` that is not empty (or the end).
pub open spec fn first_filled(lines: Seq<Seq<char>>, index: int) -> int
    decreases lines.len() - index,
{
    if 0 <= index < lines.len() && lines[index].len() == 0 {
        first_filled(lines, index + 1)
    } else {
        index
    }
}

/// The readable text of a cue whose payload lines are given, if not empty.
/// The payload starts at its first line that is not empty: blank lines
/// between a timing line and the cue's text are not part of it.
pub open spec fn cue_text_of(payload_lines: Seq<Seq<char>>) -> Seq<Seq<char>> {
    let payload = join_lines(
        payload_lines.subrange(first_filled(payload_lines, 0), payload_lines.len() as int),
    );
    if payload.len() > 0 {
        seq![spec_payload_plain_text(payload)]
    } else {
        seq![]
    }
}

pub proof fn lemma_skip_filled_bounds(lines: Seq<Seq<char>>, index: int)
    requires
        0 <= index <= lines.len(),
    ensures
        index <= skip_filled(lines, index) <= lines.len(),
    decreases lines.len() - index,
{
    if index < lines.len() && !is_blank(lines[index]) {
        lemma_skip_filled_bounds(lines, index + 1);
    }
}

pub proof fn lemma_skip_blank_bounds(lines: Seq<Seq<char>>, index: int)
    requires
        0 <= index <= lines.len(),
    ensures
        index <= skip_blank(lines, index) <= lines.len(),
    decreases lines.len() - index,
{
    if index < lines.len() && is_blank(lines[index]) {
        lemma_skip_blank_bounds(lines, index + 1);
    }
}

pub proof fn lemma_collect_payload_bounds(lines: Seq<Seq<char>>, index: int)
    requires
        0 <= index <= lines.len(),
    ensures
        index <= collect_payload(lines, index).1 <= lines.len(),
    decreases lines.len() - index,
{
    if index < lines.len() {
        lemma_skip_blank_bounds(lines, index);
        lemma_collect_payload_bounds(lines, index + 1);
    }
}

/// A line that goes into a cue's payload as it is: not blank, not a block
/// header and not a timing line.
pub open spec fn is_plain_payload_line(line: Seq<char>) -> bool {
    !is_blank(line) && !is_block_header(line) && !is_timing_line(line)
}

/// The payload lines from `index` on are all kept, each without trailing
/// whitespace, up to the end of the text or the next block header or timing
/// line: a cue of several lines loses none of them.
pub proof fn lemma_payload_keeps_every_line(lines: Seq<Seq<char>>, index: int, end: int)
    requires
        0 <= index <= end <= lines.len(),
        forall|q: int| index <= q < end ==> is_plain_payload_line(#[trigger] lines[q]),
        end == lines.len() || is_block_header(lines[end]) || is_timing_line(lines[end]),
    ensures
        collect_payload(lines, index) == (
            lines.subrange(index, end).map_values(|l: Seq<char>| trim_end(l)),
            end,
        ),
    decreases end - index,
{
    if index == end {
        assert(lines.subrange(index, end).map_values(|l: Seq<char>| trim_end(l)) =~= Seq::<
            Seq<char>,
        >::empty());
    } else {
        assert(is_plain_payload_line(lines[index]));
        lemma_payload_keeps_every_line(lines, index + 1, end);
        assert(lines.subrange(index, end).map_values(|l: Seq<char>| trim_end(l)) =~= seq![
            trim_end(lines[index]),
        ] + lines.subrange(index + 1, end).map_values(|l: Seq<char>| trim_end(l)));
    }
}

proof fn lemma_trim_end_keeps_last_word(s: Seq<char>)
    requires
        !is_blank(s),
    ensures
        trim_end(s).len() > 0,
        !is_ws(trim_end(s).last()),
        trim_end(s).len() <= s.len(),
        trim_end(s) == s.subrange(0, trim_end(s).len() as int),
    decreases s.len(),
{
    if s.len() > 0 && is_ws(s.last()) {
        assert(!is_blank(s.drop_last())) by {
            let k = choose|k: int| 0 <= k < s.len() && !is_ws(#[trigger] s[k]);
            assert(k < s.len() - 1);
            assert(s.drop_last()[k] == s[k]);
        }
        lemma_trim_end_keeps_last_word(s.drop_last());
        let n = trim_end(s).len() as int;
        assert(s.drop_last().subrange(0, n) =~= s.subrange(0, n));
    } else {
        if s.len() == 0 {
            assert(is_blank(s));
        }
        assert(s.subrange(0, s.len() as int) =~= s);
    }
}

proof fn lemma_join_without_lt(ls: Seq<Seq<char>>)
    requires
        forall|q: int| 0 <= q < ls.len() ==> !(#[trigger] ls[q]).contains('<'),
    ensures
        !join_lines(ls).contains('<'),
    decreases ls.len(),
{
    if ls.len() > 1 {
        let rest = ls.drop_last();
        assert forall|q: int| 0 <= q < rest.len() implies !(#[trigger] rest[q]).contains('<') by {
            assert(rest[q] == ls[q]);
        }
        lemma_join_without_lt(rest);
        let j = join_lines(rest) + seq!['\n'] + ls.last();
        assert(!ls[ls.len() - 1].contains('<'));
        if j.contains('<') {
            let k = choose|k: int| 0 <= k < j.len() && j[k] == '<';
            if k < join_lines(rest).len() {
                assert(join_lines(rest)[k] == '<');
            } else if k > join_lines(rest).len() {
                assert(ls.last()[k - join_lines(rest).len() - 1] == '<');
            }
        }
    }
}

proof fn lemma_join_starts_with_first(ls: Seq<Seq<char>>)
    requires
        ls.len() > 0,
    ensures
        ls[0].len() <= join_lines(ls).len(),
        join_lines(ls).subrange(0, ls[0].len() as int) == ls[0],
    decreases ls.len(),
{
    if ls.len() > 1 {
        let rest = ls.drop_last();
        lemma_join_starts_with_first(rest);
        let j = join_lines(rest) + seq!['\n'] + ls.last();
        assert(j.subrange(0, ls[0].len() as int) =~= join_lines(rest).subrange(0, ls[0].len() as int));
    }
}

/// A cue whose payload lines hold no markup is read as those lines, each
/// without trailing whitespace, joined with `\n`: the cue ends only at the
/// end of the text, a block header or the next timing line, and none of its
/// lines is lost.
pub proof fn lemma_plain_cue_reads_as_its_lines(lines: Seq<Seq<char>>, timing: int, end: int)
    requires
        0 <= timing < end <= lines.len(),
        end > timing + 1,
        is_timing_line(lines[timing]),
        !is_block_header(lines[timing]),
        forall|q: int| timing < q < end ==> is_plain_payload_line(#[trigger] lines[q]),
        forall|q: int| timing < q < end ==> !(#[trigger] lines[q]).contains('<'),
        end == lines.len() || is_block_header(lines[end]) || is_timing_line(lines[end]),
    ensures
        fallback_cue_texts(lines, timing) == seq![
            join_lines(lines.subrange(timing + 1, end).map_values(|l: Seq<char>| trim_end(l))),
        ] + fallback_cue_texts(lines, end),
{
    assert(!is_blank(lines[timing])) by {
        let i = choose|i: int| occurs_at(lines[timing], arrow(), i);
        assert(lines[timing].subrange(i, i + 3)[0] == lines[timing][i]);
        assert(arrow()[0] == '-');
    }
    lemma_payload_keeps_every_line(lines, timing + 1, end);
    let payload = lines.subrange(timing + 1, end).map_values(|l: Seq<char>| trim_end(l));
    let first = lines[timing + 1];
    assert(is_plain_payload_line(first));
    lemma_trim_end_keeps_last_word(first);
    assert(payload[0] == trim_end(first));
    assert(first_filled(payload, 0) == 0);
    assert(payload.subrange(0, payload.len() as int) =~= payload);
    let joined = join_lines(payload);
    lemma_join_starts_with_first(payload);
    assert forall|q: int| 0 <= q < payload.len() implies !(#[trigger] payload[q]).contains('<') by {
        let l = lines[timing + 1 + q];
        assert(payload[q] == trim_end(l));
        assert(!l.contains('<'));
        assert(is_plain_payload_line(l));
        lemma_trim_end_keeps_last_word(l);
        if trim_end(l).contains('<') {
            let k = choose|k: int| 0 <= k < trim_end(l).len() && trim_end(l)[k] == '<';
            assert(l[k] == '<');
        }
    }
    lemma_join_without_lt(payload);
    let w = trim_end(first);
    assert(!is_blank(joined)) by {
        assert(joined[w.len() - 1] == w[w.len() - 1]);
    }
    lemma_plain_payload_reads_as_itself(joined);
}

/// The cue texts found from line `index` on.
pub open spec fn fallback_cue_texts(lines: Seq<Seq<char>>, index: int) -> Seq<Seq<char>>
    decreases lines.len() - index,
{
    if index < 0 || index >= lines.len() {
        seq![]
    } else if is_blank(lines[index]) {
        fallback_cue_texts(lines, index + 1)
    } else if is_block_header(lines[index]) {
        proof {
            lemma_skip_filled_bounds(lines, index + 1);
        }
        fallback_cue_texts(lines, skip_filled(lines, index + 1))
    } else if is_timing_line(lines[index]) {
        proof {
            lemma_collect_payload_bounds(lines, index + 1);
        }
        let (payload, next) = collect_payload(lines, index + 1);
        cue_text_of(payload) + fallback_cue_texts(lines, next)
    } else if index + 1 < lines.len() && is_timing_line(lines[index + 1]) {
        proof {
            lemma_collect_payload_bounds(lines, index + 2);
        }
        let (payload, next) = collect_payload(lines, index + 2);
        cue_text_of(payload) + fallback_cue_texts(lines, next)
    } else {
        fallback_cue_texts(lines, index + 1)
    }
}

/// The readable text of WebVTT content: its lines (after line endings are
/// unified) must start with a `WEBVTT` line (a byte order mark and leading
/// whitespace are allowed); the cue texts found after it are joined with
/// overlap removal.
pub open spec fn spec_fallback_text(content: Seq<char>) -> Result<Seq<char>, FallbackError> {
    let lines = text_lines(normalized_line_endings(content));
    if lines.len() == 0 || !starts_with(trim_start(without_bom(lines[0])), webvtt_word()) {
        Err(FallbackError::InvalidFormat)
    } else {
        Ok(deduplicated(fallback_cue_texts(lines, 1)))
    }
}

/// Line endings unified to `\n`.
pub fn normalize_line_endings(s: &[char]) -> (res: Vec<char>)
    ensures
        res@ == normalized_line_endings(s@),
{
    let n = s.len();
    let mut out: Vec<char> = Vec::new();
    let mut i: usize = 0;
    assert(s@.subrange(0, n as int) =~= s@);
    while i < n
        invariant
            n == s@.len(),
            i <= n,
            out@ + normalized_line_endings(s@.subrange(i as int, n as int))
                == normalized_line_endings(s@),
        decreases n - i,
    {
        let ghost rest = s@.subrange(i as int, n as int);
        let ghost before = out@;
        if s[i] == '\r' && i + 1 < n && s[i + 1] == '\n' {
            out.push('\n');
            assert(rest.subrange(2, rest.len() as int) =~= s@.subrange(i + 2, n as int));
            assert(normalized_line_endings(rest) =~= seq!['\n'] + normalized_line_endings(
                s@.subrange(i + 2, n as int),
            ));
            i += 2;
        } else {
            let c = if s[i] == '\r' {
                '\n'
            } else {
                s[i]
            };
            out.push(c);
            assert(rest.drop_first() =~= s@.subrange(i + 1, n as int));
            assert(normalized_line_endings(rest) =~= seq![c] + normalized_line_endings(
                s@.subrange(i + 1, n as int),
            ));
            i += 1;
        }
        assert(out@ + normalized_line_endings(s@.subrange(i as int, n as int)) =~= before
            + normalized_line_endings(rest));
    }
    assert(s@.subrange(n as int, n as int) =~= Seq::<char>::empty());
    assert(out@ + normalized_line_endings(Seq::<char>::empty()) =~= out@);
    out
}

/// Whether a line is blank.
pub fn is_blank_line(line: &[char]) -> (res: bool)
    ensures
        res == is_blank(line@),
{
    assert(line@.subrange(0, line@.len() as int) =~= line@);
    is_blank_in(line, 0, line.len())
}

/// Whether a line is a cue timing line (holds `-->`).
pub fn is_timing_line_exec(line: &[char]) -> (res: bool)
    ensures
        res == is_timing_line(line@),
{
    let lit = ['-', '-', '>'];
    assert(lit@ =~= arrow());
    contains_chars(line, &lit)
}

/// Whether a line opens a `STYLE`, `REGION` or `NOTE` block.
pub fn is_vtt_block_header(line: &[char]) -> (res: bool)
    ensures
        res == is_block_header(line@),
{
    assert(line@.subrange(0, line@.len() as int) =~= line@);
    let (a, b) = trim_bounds(line, 0, line.len());
    let style = ['S', 'T', 'Y', 'L', 'E'];
    let region = ['R', 'E', 'G', 'I', 'O', 'N'];
    let note = ['N', 'O', 'T', 'E'];
    assert(style@ =~= style_word());
    assert(region@ =~= region_word());
    assert(note@ =~= note_word());
    range_equals(line, a, b, &style) || range_equals(line, a, b, &region) || range_starts_with(
        line,
        a,
        b,
        &note,
    )
}

/// The first line at or after `index` that is blank (or the end).
pub fn skip_block(lines: &[Vec<char>], index: usize) -> (res: usize)
    requires
        index <= lines@.len(),
    ensures
        res == skip_filled(chars_views(lines@), index as int),
{
    let ghost views = chars_views(lines@);
    let mut i = index;
    while i < lines.len() && !is_blank_line(lines[i].as_slice())
        invariant
            index <= i <= lines@.len(),
            views == chars_views(lines@),
            skip_filled(views, index as int) == skip_filled(views, i as int),
        decreases lines@.len() - i,
    {
        i += 1;
    }
    i
}

/// The first line at or after `index` that is not blank (or the end).
pub fn skip_blank_lines(lines: &[Vec<char>], index: usize) -> (res: usize)
    requires
        index <= lines@.len(),
    ensures
        res == skip_blank(chars_views(lines@), index as int),
{
    let ghost views = chars_views(lines@);
    let mut i = index;
    while i < lines.len() && is_blank_line(lines[i].as_slice())
        invariant
            index <= i <= lines@.len(),
            views == chars_views(lines@),
            skip_blank(views, index as int) == skip_blank(views, i as int),
        decreases lines@.len() - i,
    {
        i += 1;
    }
    i
}

/// A cue's payload lines from `index` on, and the index where the cue ends.
pub fn collect_cue_payload(lines: &[Vec<char>], index: usize) -> (res: (Vec<Vec<char>>, usize))
    requires
        index <= lines@.len(),
    ensures
        (chars_views(res.0@), res.1 as int) == collect_payload(chars_views(lines@), index as int),
{
    let ghost views = chars_views(lines@);
    let mut payload: Vec<Vec<char>> = Vec::new();
    let mut i = index;
    loop
        invariant
            index <= i <= lines@.len(),
            views == chars_views(lines@),
            chars_views(payload@) + collect_payload(views, i as int).0 == collect_payload(
                views,
                index as int,
            ).0,
            collect_payload(views, i as int).1 == collect_payload(views, index as int).1,
        decreases lines@.len() - i,
    {
        let ghost before = payload@;
        if i >= lines.len() {
            assert(chars_views(payload@) =~= collect_payload(views, index as int).0);
            return (payload, i);
        }
        let current = lines[i].as_slice();
        assert(current@ == views[i as int]);
        if is_vtt_block_header(current) || is_timing_line_exec(current) {
            assert(chars_views(payload@) =~= collect_payload(views, index as int).0);
            return (payload, i);
        }
        if is_blank_line(current) {
            let next = skip_blank_lines(lines, i);
            proof {
                lemma_skip_blank_bounds(views, i as int);
            }
            if next >= lines.len() || is_vtt_block_header(lines[next].as_slice())
                || is_timing_line_exec(lines[next].as_slice()) || (next + 1 < lines.len()
                && is_timing_line_exec(lines[next + 1].as_slice())) {
                assert(chars_views(payload@) =~= collect_payload(views, index as int).0);
                return (payload, next);
            }
            payload.push(Vec::new());
            assert(chars_views(payload@) =~= chars_views(before) + seq![seq![]]);
        } else {
            let end = skip_ws_backward(current, 0, current.len());
            assert(current@.subrange(0, current@.len() as int) =~= current@);
            payload.push(crate::text::sub_vec(current, 0, end));
            assert(chars_views(payload@) =~= chars_views(before) + seq![trim_end(current@)]);
        }
        i += 1;
    }
}

/// Lines joined with `\n` between them.
pub fn join_with_newlines(lines: &[Vec<char>]) -> (res: Vec<char>)
    ensures
        res@ == join_lines(chars_views(lines@)),
{
    let ghost views = chars_views(lines@);
    let mut out: Vec<char> = Vec::new();
    let mut i: usize = 0;
    while i < lines.len()
        invariant
            i <= lines@.len(),
            views == chars_views(lines@),
            out@ == join_lines(views.subrange(0, i as int)),
        decreases lines@.len() - i,
    {
        assert(views.subrange(0, i + 1).drop_last() =~= views.subrange(0, i as int));
        let ghost before = out@;
        if i > 0 {
            out.push('\n');
        }
        let line = lines[i].as_slice();
        let mut k: usize = 0;
        let ghost mid = out@;
        while k < line.len()
            invariant
                k <= line@.len(),
                out@ == mid + line@.subrange(0, k as int),
            decreases line@.len() - k,
        {
            out.push(line[k]);
            assert(out@ =~= mid + line@.subrange(0, k + 1));
            k += 1;
        }
        assert(line@.subrange(0, line@.len() as int) =~= line@);
        assert(out@ =~= join_lines(views.subrange(0, i + 1)));
        i += 1;
    }
    assert(views.subrange(0, lines@.len() as int) =~= views);
    out
}

/// Adds the readable text of a cue's payload lines, when there is any.
fn push_cue_text(texts: &mut Vec<Vec<char>>, payload_lines: &[Vec<char>])
    ensures
        chars_views(final(texts)@) == chars_views(old(texts)@) + cue_text_of(
            chars_views(payload_lines@),
        ),
{
    let ghost views = chars_views(payload_lines@);
    let mut start: usize = 0;
    while start < payload_lines.len() && payload_lines[start].len() == 0
        invariant
            start <= payload_lines@.len(),
            views == chars_views(payload_lines@),
            first_filled(views, start as int) == first_filled(views, 0),
        decreases payload_lines@.len() - start,
    {
        assert(views[start as int] == payload_lines@[start as int]@);
        start += 1;
    }
    assert(start < payload_lines@.len() ==> views[start as int] == payload_lines@[start as int]@);
    assert(first_filled(views, start as int) == start);
    let filled = vstd::slice::slice_subrange(payload_lines, start, payload_lines.len());
    assert(chars_views(filled@) =~= views.subrange(start as int, views.len() as int));
    let payload = join_with_newlines(filled);
    if payload.len() > 0 {
        let payload_text = string_from_chars(payload.as_slice());
        let plain = cue_payload_plain_text(payload_text.as_str());
        let ghost before = texts@;
        texts.push(str_chars(plain.as_str()));
        assert(chars_views(texts@) =~= chars_views(before) + cue_text_of(
            chars_views(payload_lines@),
        ));
    } else {
        assert(chars_views(texts@) =~= chars_views(old(texts)@) + cue_text_of(
            chars_views(payload_lines@),
        ));
    }
}

/// The cue texts found from line `index` on.
pub fn collect_cue_texts(lines: &[Vec<char>], index: usize) -> (res: Vec<Vec<char>>)
    requires
        index <= lines@.len(),
    ensures
        chars_views(res@) == fallback_cue_texts(chars_views(lines@), index as int),
{
    let ghost views = chars_views(lines@);
    let mut texts: Vec<Vec<char>> = Vec::new();
    let mut i = index;
    while i < lines.len()
        invariant
            i <= lines@.len(),
            views == chars_views(lines@),
            chars_views(texts@) + fallback_cue_texts(views, i as int) == fallback_cue_texts(
                views,
                index as int,
            ),
        decreases lines@.len() - i,
    {
        let ghost before = texts@;
        let line = lines[i].as_slice();
        assert(line@ == views[i as int]);
        if is_blank_line(line) {
            i += 1;
        } else if is_vtt_block_header(line) {
            proof {
                lemma_skip_filled_bounds(views, i + 1);
            }
            i = skip_block(lines, i + 1);
        } else if is_timing_line_exec(line) {
            proof {
                lemma_collect_payload_bounds(views, i + 1);
            }
            let (payload, next) = collect_cue_payload(lines, i + 1);
            push_cue_text(&mut texts, payload.as_slice());
            assert(chars_views(texts@) + fallback_cue_texts(views, next as int) =~= chars_views(
                before,
            ) + fallback_cue_texts(views, i as int));
            i = next;
        } else if i + 1 < lines.len() && is_timing_line_exec(lines[i + 1].as_slice()) {
            proof {
                lemma_collect_payload_bounds(views, i + 2);
            }
            let (payload, next) = collect_cue_payload(lines, i + 2);
            push_cue_text(&mut texts, payload.as_slice());
            assert(chars_views(texts@) + fallback_cue_texts(views, next as int) =~= chars_views(
                before,
            ) + fallback_cue_texts(views, i as int));
            i = next;
        } else {
            i += 1;
        }
    }
    assert(chars_views(texts@) + fallback_cue_texts(views, i as int) =~= chars_views(texts@));
    texts
}

/// Whether the first line of a file announces WebVTT.
fn is_webvtt_first_line(line: &[char]) -> (res: bool)
    ensures
        res == starts_with(trim_start(without_bom(line@)), webvtt_word()),
{
    let start = if line.len() > 0 && line[0] == '\u{feff}' {
        1
    } else {
        0
    };
    assert(line@.subrange(start as int, line@.len() as int) =~= without_bom(line@));
    let a = skip_ws_forward(line, start, line.len());
    let lit = ['W', 'E', 'B', 'V', 'T', 'T'];
    assert(lit@ =~= webvtt_word());
    range_starts_with(line, a, line.len(), &lit)
}

/// Readable text of WebVTT content, read line by line without a full parse.
pub fn convert_vtt_content_to_text_fallback(content: &str) -> (res: Result<String, FallbackError>)
    ensures
        match res {
            Ok(text) => spec_fallback_text(content@) == Ok::<Seq<char>, FallbackError>(text@),
            Err(e) => spec_fallback_text(content@) == Err::<Seq<char>, FallbackError>(e),
        },
{
    let chars = str_chars(content);
    let normalized = normalize_line_endings(chars.as_slice());
    let lines = split_lines(normalized.as_slice());
    if lines.len() == 0 {
        return Err(FallbackError::InvalidFormat);
    }
    assert(lines[0]@ == chars_views(lines@)[0]);
    if !is_webvtt_first_line(lines[0].as_slice()) {
        return Err(FallbackError::InvalidFormat);
    }
    let texts = collect_cue_texts(lines.as_slice(), 1);
    let text = deduplicated_chars(texts.as_slice());
    assert(texts@.map_values(|t: Vec<char>| t@) == chars_views(texts@));
    Ok(string_from_chars(text.as_slice()))
}

} // verus!
