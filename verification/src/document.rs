//! WebVTT document shapes and the readable TXT projection: cue texts are
//! joined with their overlap removed, then split into lines.
use crate::payload::VttCueFragment;
use crate::text::{
    ends_with, find_char, is_ws, lemma_find_char_props, str_chars, string_from_chars,
    string_of_range,
};
use crate::timestamp::VttTimestamp;
use vstd::prelude::*;
use vstd::string::StringExecFns;

verus! {

/// A full WebVTT document shape.
#[derive(Debug, Clone, PartialEq, Eq, Default)]
pub struct VttDocument {
    pub header: VttHeader,
    pub blocks: Vec<VttBlock>,
}

/// Header data for a WebVTT document.
#[derive(Debug, Clone, PartialEq, Eq, Default)]
pub struct VttHeader {
    pub description: Option<String>,
    pub metadata: Vec<VttMetadataEntry>,
}

/// A metadata key/value pair in the VTT header.
#[derive(Debug, Clone, PartialEq, Eq)]
pub struct VttMetadataEntry {
    pub key: String,
    pub value: String,
}

/// A top-level block in a WebVTT file.
#[derive(Debug, Clone, PartialEq, Eq)]
pub enum VttBlock {
    Note(VttNoteBlock),
    Style(VttStyleBlock),
    Region(VttRegionBlock),
    Cue(VttCue),
}

/// A NOTE block.
#[derive(Debug, Clone, PartialEq, Eq)]
pub struct VttNoteBlock {
    pub lines: Vec<String>,
}

/// A STYLE block.
#[derive(Debug, Clone, PartialEq, Eq)]
pub struct VttStyleBlock {
    pub css: Vec<String>,
}

/// A REGION block.
#[derive(Debug, Clone, PartialEq, Eq)]
pub struct VttRegionBlock {
    pub lines: Vec<String>,
}

/// A cue in a WebVTT document.
#[derive(Debug, Clone, PartialEq, Eq)]
pub struct VttCue {
    pub identifier: Option<String>,
    pub timing: VttCueTiming,
    pub payload: VttCuePayload,
}

/// Timing and settings for a cue.
#[derive(Debug, Clone, PartialEq, Eq)]
pub struct VttCueTiming {
    pub start: VttTimestamp,
    pub end: VttTimestamp,
    pub settings: Vec<VttCueSetting>,
}

/// A single cue setting token.
#[derive(Debug, Clone, PartialEq, Eq)]
pub struct VttCueSetting {
    pub key: String,
    pub value: String,
}

/// A cue payload broken into lines and fragments.
#[derive(Debug, Clone, PartialEq, Eq, Default)]
pub struct VttCuePayload {
    pub lines: Vec<VttCuePayloadLine>,
}

/// One rendered line from a cue payload.
#[derive(Debug, Clone, PartialEq, Eq, Default)]
pub struct VttCuePayloadLine {
    pub fragments: Vec<VttCueFragment>,
}

/// A readable TXT document shape.
#[derive(Debug, Clone, PartialEq, Eq, Default)]
pub struct TxtDocument {
    pub lines: Vec<TxtLine>,
}

/// A single TXT line with optional coarse timestamp metadata.
#[derive(Debug, Clone, PartialEq, Eq)]
pub struct TxtLine {
    pub timestamp: Option<VttTimestamp>,
    pub text: String,
}

/// The largest `k <= limit` such that `existing` ends with the first `k`
/// characters of `incoming` (0 when none does).
pub open spec fn overlap_upto(existing: Seq<char>, incoming: Seq<char>, limit: nat) -> nat
    decreases limit,
{
    if limit == 0 {
        0
    } else if ends_with(existing, incoming.subrange(0, limit as int)) {
        limit
    } else {
        overlap_upto(existing, incoming, (limit - 1) as nat)
    }
}

/// How much of the start of `incoming` is already at the end of `existing`.
pub open spec fn overlap(existing: Seq<char>, incoming: Seq<char>) -> nat {
    overlap_upto(existing, incoming, incoming.len())
}

/// Cue texts that touch without any whitespace between them are kept apart.
pub open spec fn needs_separator(existing: Seq<char>, incoming: Seq<char>) -> bool {
    existing.len() > 0 && incoming.len() > 0 && !is_ws(existing.last()) && !is_ws(incoming[0])
}

/// Adds one cue text to the readable output: an empty text is skipped; the
/// part of its start that the output already ends with is dropped, and when
/// nothing overlaps a line break keeps two words from running together.
pub open spec fn dedup_step(result: Seq<char>, text: Seq<char>) -> Seq<char> {
    if text.len() == 0 {
        result
    } else {
        let ov = overlap(result, text);
        let base = if ov == 0 && needs_separator(result, text) {
            result.push('\n')
        } else {
            result
        };
        base + text.subrange(ov as int, text.len() as int)
    }
}

/// The readable output of a sequence of cue texts, added in order.
pub open spec fn deduplicated(texts: Seq<Seq<char>>) -> Seq<char>
    decreases texts.len(),
{
    if texts.len() == 0 {
        seq![]
    } else {
        dedup_step(deduplicated(texts.drop_last()), texts.last())
    }
}

/// `line` without one trailing carriage return.
pub open spec fn strip_cr(line: Seq<char>) -> Seq<char> {
    if line.len() > 0 && line.last() == '\r' {
        line.drop_last()
    } else {
        line
    }
}

/// `str::lines`: pieces between `\n`, each without a trailing `\r` before
/// its `\n`; no line after a final `\n`, and none at all for empty text.
pub open spec fn text_lines(s: Seq<char>) -> Seq<Seq<char>>
    decreases s.len(),
{
    proof {
        lemma_find_char_props(s, '\n');
    }
    if s.len() == 0 {
        seq![]
    } else {
        match find_char(s, '\n') {
            Some(i) => seq![strip_cr(s.subrange(0, i))] + text_lines(
                s.subrange(i + 1, s.len() as int),
            ),
            None => seq![s],
        }
    }
}

/// Lines joined with `\n` between them.
pub open spec fn join_lines(lines: Seq<Seq<char>>) -> Seq<char>
    decreases lines.len(),
{
    if lines.len() == 0 {
        seq![]
    } else if lines.len() == 1 {
        lines[0]
    } else {
        join_lines(lines.drop_last()) + seq!['\n'] + lines.last()
    }
}

pub open spec fn txt_line_texts(lines: Seq<TxtLine>) -> Seq<Seq<char>> {
    lines.map_values(|l: TxtLine| l.text@)
}

pub open spec fn str_views(texts: Seq<&str>) -> Seq<Seq<char>> {
    texts.map_values(|t: &str| t@)
}

/// Whether `existing` ends with `incoming[..k]`.
fn ends_with_prefix(existing: &[char], incoming: &[char], k: usize) -> (res: bool)
    requires
        k <= incoming@.len(),
    ensures
        res == ends_with(existing@, incoming@.subrange(0, k as int)),
{
    let n = existing.len();
    if k > n {
        return false;
    }
    let mut i: usize = 0;
    while i < k
        invariant
            k <= n == existing@.len(),
            k <= incoming@.len(),
            i <= k,
            forall|j: int| 0 <= j < i ==> existing@[n - k + j] == incoming@[j],
        decreases k - i,
    {
        if existing[n - k + i] != incoming[i] {
            assert(existing@.subrange(n - k, n as int)[i as int] != incoming@.subrange(
                0,
                k as int,
            )[i as int]);
            return false;
        }
        i += 1;
    }
    assert(existing@.subrange(n - k, n as int) =~= incoming@.subrange(0, k as int));
    true
}

/// `overlap` of two texts.
pub fn longest_char_boundary_overlap(existing: &[char], incoming: &[char]) -> (res: usize)
    ensures
        res == overlap(existing@, incoming@),
{
    let mut k = incoming.len();
    while k > 0
        invariant
            k <= incoming@.len(),
            overlap(existing@, incoming@) == overlap_upto(existing@, incoming@, k as nat),
        decreases k,
    {
        if ends_with_prefix(existing, incoming, k) {
            return k;
        }
        k -= 1;
    }
    0
}

/// `needs_separator` of two texts.
pub fn should_insert_separator(existing: &[char], incoming: &[char]) -> (res: bool)
    ensures
        res == needs_separator(existing@, incoming@),
{
    if existing.len() == 0 || incoming.len() == 0 {
        return false;
    }
    !crate::text::is_whitespace_char(existing[existing.len() - 1])
        && !crate::text::is_whitespace_char(incoming[0])
}

/// Adds one cue text to the readable output.
pub fn push_deduplicated(result: &mut Vec<char>, text: &[char])
    ensures
        final(result)@ == dedup_step(old(result)@, text@),
{
    if text.len() == 0 {
        return;
    }
    let ov = longest_char_boundary_overlap(result.as_slice(), text);
    if ov == 0 && should_insert_separator(result.as_slice(), text) {
        result.push('\n');
    }
    let ghost base = result@;
    let mut i = ov;
    assert(ov <= text@.len()) by {
        lemma_overlap_bounds(old(result)@, text@, text@.len());
    }
    while i < text.len()
        invariant
            ov <= i <= text@.len(),
            result@ == base + text@.subrange(ov as int, i as int),
        decreases text@.len() - i,
    {
        result.push(text[i]);
        assert(result@ =~= base + text@.subrange(ov as int, i + 1));
        i += 1;
    }
}

pub proof fn lemma_overlap_bounds(existing: Seq<char>, incoming: Seq<char>, limit: nat)
    ensures
        overlap_upto(existing, incoming, limit) <= limit,
    decreases limit,
{
    if limit > 0 {
        lemma_overlap_bounds(existing, incoming, (limit - 1) as nat);
    }
}

/// The readable output of a sequence of cue texts.
pub fn deduplicated_chars(texts: &[Vec<char>]) -> (res: Vec<char>)
    ensures
        res@ == deduplicated(texts@.map_values(|t: Vec<char>| t@)),
{
    let ghost views = texts@.map_values(|t: Vec<char>| t@);
    let mut result: Vec<char> = Vec::new();
    let mut i: usize = 0;
    while i < texts.len()
        invariant
            i <= texts@.len(),
            views == texts@.map_values(|t: Vec<char>| t@),
            result@ == deduplicated(views.subrange(0, i as int)),
        decreases texts@.len() - i,
    {
        assert(views.subrange(0, i + 1).drop_last() =~= views.subrange(0, i as int));
        push_deduplicated(&mut result, texts[i].as_slice());
        i += 1;
    }
    assert(views.subrange(0, texts@.len() as int) =~= views);
    result
}

pub open spec fn chars_views(v: Seq<Vec<char>>) -> Seq<Seq<char>> {
    v.map_values(|l: Vec<char>| l@)
}

/// `str::lines` of a text.
pub fn split_lines(s: &[char]) -> (res: Vec<Vec<char>>)
    ensures
        chars_views(res@) == text_lines(s@),
{
    let n = s.len();
    let mut lines: Vec<Vec<char>> = Vec::new();
    let mut start: usize = 0;
    assert(s@.subrange(0, n as int) =~= s@);
    loop
        invariant
            n == s@.len(),
            start <= n,
            chars_views(lines@) + text_lines(s@.subrange(start as int, n as int))
                == text_lines(s@),
        decreases n - start,
    {
        let ghost rest = s@.subrange(start as int, n as int);
        let ghost before = lines@;
        if start == n {
            assert(chars_views(lines@) =~= text_lines(s@));
            return lines;
        }
        match crate::text::find_char_in(s, start, n, '\n') {
            Some(nl) => {
                let end = if nl > start && s[nl - 1] == '\r' {
                    nl - 1
                } else {
                    nl
                };
                lines.push(crate::text::sub_vec(s, start, end));
                assert(rest.subrange(0, nl - start) =~= s@.subrange(start as int, nl as int));
                assert(s@.subrange(start as int, end as int) =~= strip_cr(
                    s@.subrange(start as int, nl as int),
                ));
                assert(rest.subrange(nl - start + 1, rest.len() as int) =~= s@.subrange(
                    nl + 1,
                    n as int,
                ));
                assert(chars_views(lines@) =~= chars_views(before) + seq![
                    strip_cr(rest.subrange(0, nl - start)),
                ]);
                start = nl + 1;
            },
            None => {
                lines.push(crate::text::sub_vec(s, start, n));
                assert(chars_views(lines@) =~= chars_views(before) + seq![rest]);
                return lines;
            },
        }
    }
}

impl TxtDocument {
    /// Build a readable TXT document from cue text chunks, applying overlap removal.
    pub fn from_cue_texts(cue_texts: &[&str]) -> (res: Self)
        ensures
            txt_line_texts(res.lines@) == text_lines(deduplicated(str_views(cue_texts@))),
            forall|i: int| 0 <= i < res.lines@.len() ==> (#[trigger] res.lines@[i]).timestamp
                is None,
    {
        let ghost views = str_views(cue_texts@);
        let mut result: Vec<char> = Vec::new();
        let mut i: usize = 0;
        while i < cue_texts.len()
            invariant
                i <= cue_texts@.len(),
                views == str_views(cue_texts@),
                result@ == deduplicated(views.subrange(0, i as int)),
            decreases cue_texts@.len() - i,
        {
            assert(views.subrange(0, i + 1).drop_last() =~= views.subrange(0, i as int));
            let text = str_chars(cue_texts[i]);
            push_deduplicated(&mut result, text.as_slice());
            i += 1;
        }
        assert(views.subrange(0, cue_texts@.len() as int) =~= views);
        let texts = split_lines(result.as_slice());
        let mut lines: Vec<TxtLine> = Vec::new();
        let mut k: usize = 0;
        while k < texts.len()
            invariant
                k <= texts@.len(),
                txt_line_texts(lines@) == chars_views(texts@).subrange(0, k as int),
                forall|j: int| 0 <= j < lines@.len() ==> (#[trigger] lines@[j]).timestamp is None,
            decreases texts@.len() - k,
        {
            let text = string_from_chars(texts[k].as_slice());
            assert(text@ == chars_views(texts@)[k as int]);
            let ghost old_lines = lines@;
            let ghost text_view = text@;
            lines.push(TxtLine { timestamp: None, text });
            assert(txt_line_texts(lines@) =~= txt_line_texts(old_lines).push(text_view));
            assert(txt_line_texts(lines@) =~= chars_views(texts@).subrange(
                0,
                k + 1,
            ));
            k += 1;
        }
        assert(chars_views(texts@).subrange(0, texts@.len() as int) =~= chars_views(texts@));
        TxtDocument { lines }
    }

    /// Render this document as newline-delimited readable text.
    pub fn to_plain_text(&self) -> (res: String)
        ensures
            res@ == join_lines(txt_line_texts(self.lines@)),
    {
        let ghost texts = txt_line_texts(self.lines@);
        let mut out = String::new();
        let mut i: usize = 0;
        while i < self.lines.len()
            invariant
                i <= self.lines@.len(),
                texts == txt_line_texts(self.lines@),
                out@ == join_lines(texts.subrange(0, i as int)),
            decreases self.lines@.len() - i,
        {
            assert(texts.subrange(0, i + 1).drop_last() =~= texts.subrange(0, i as int));
            if i > 0 {
                out.append("\n");
                proof {
                    reveal_strlit("\n");
                }
            }
            out.append(self.lines[i].text.as_str());
            assert(out@ =~= join_lines(texts.subrange(0, i + 1)));
            i += 1;
        }
        assert(texts.subrange(0, self.lines@.len() as int) =~= texts);
        out
    }
}


proof fn lemma_overlap_ends_with(existing: Seq<char>, incoming: Seq<char>, limit: nat)
    requires
        limit <= incoming.len(),
    ensures
        ends_with(
            existing,
            incoming.subrange(0, overlap_upto(existing, incoming, limit) as int),
        ),
    decreases limit,
{
    lemma_overlap_bounds(existing, incoming, limit);
    if limit > 0 && !ends_with(existing, incoming.subrange(0, limit as int)) {
        lemma_overlap_ends_with(existing, incoming, (limit - 1) as nat);
    }
    if overlap_upto(existing, incoming, limit) == 0 {
        assert(existing.subrange(existing.len() as int, existing.len() as int) =~= incoming.subrange(
            0,
            0,
        ));
    }
}

/// Adding a cue text never changes what was already output: the previous
/// output is a prefix of the new one.
pub proof fn lemma_dedup_extends(result: Seq<char>, text: Seq<char>)
    ensures
        result.is_prefix_of(dedup_step(result, text)),
{
    let out = dedup_step(result, text);
    if text.len() > 0 {
        assert forall|i: int| 0 <= i < result.len() implies result[i] == out[i] by {}
    }
}

/// After a non-empty cue text is added, the output ends with that whole text:
/// deduplication never loses the newest cue.
pub proof fn lemma_dedup_ends_with_text(result: Seq<char>, text: Seq<char>)
    requires
        text.len() > 0,
    ensures
        ends_with(dedup_step(result, text), text),
{
    let ov = overlap(result, text);
    lemma_overlap_bounds(result, text, text.len());
    lemma_overlap_ends_with(result, text, text.len());
    let out = dedup_step(result, text);
    let base = if ov == 0 && needs_separator(result, text) {
        result.push('\n')
    } else {
        result
    };
    assert(out == base + text.subrange(ov as int, text.len() as int));
    assert(base.subrange(base.len() - ov, base.len() as int) =~= text.subrange(0, ov as int)) by {
        if ov > 0 {
            assert(base == result);
        }
    }
    assert(out.subrange(out.len() - text.len(), out.len() as int) =~= text) by {
        assert forall|i: int| 0 <= i < text.len() implies out.subrange(
            out.len() - text.len(),
            out.len() as int,
        )[i] == text[i] by {
            if i < ov {
                assert(out[base.len() - ov + i] == base[base.len() - ov + i]);
                assert(base.subrange(base.len() - ov, base.len() as int)[i] == base[base.len() - ov
                    + i]);
            } else {
                assert(out[base.len() + i - ov] == text.subrange(ov as int, text.len() as int)[i
                    - ov]);
            }
        }
    }
}

/// Adding the same cue text twice in a row adds nothing the second time.
pub proof fn lemma_dedup_repeat(result: Seq<char>, text: Seq<char>)
    ensures
        dedup_step(dedup_step(result, text), text) == dedup_step(result, text),
{
    if text.len() > 0 {
        let once = dedup_step(result, text);
        lemma_dedup_ends_with_text(result, text);
        assert(text.subrange(0, text.len() as int) =~= text);
        assert(overlap(once, text) == text.len());
        assert(text.subrange(text.len() as int, text.len() as int) =~= Seq::<char>::empty());
        assert(once + text.subrange(text.len() as int, text.len() as int) =~= once);
    }
}

proof fn lemma_join_lines_cons(a: Seq<char>, rest: Seq<Seq<char>>)
    requires
        rest.len() > 0,
    ensures
        join_lines(seq![a] + rest) == a + seq!['\n'] + join_lines(rest),
    decreases rest.len(),
{
    let all = seq![a] + rest;
    if rest.len() == 1 {
        assert(all.drop_last() =~= seq![a]);
        assert(join_lines(seq![a]) == a);
        assert(all.last() == rest[0]);
        assert(join_lines(rest) == rest[0]);
    } else {
        lemma_join_lines_cons(a, rest.drop_last());
        assert(all.drop_last() =~= seq![a] + rest.drop_last());
        assert(a + seq!['\n'] + join_lines(rest) =~= a + seq!['\n'] + join_lines(rest.drop_last())
            + seq!['\n'] + rest.last());
    }
}

/// Splitting text into lines and joining them back with `\n` gives the text
/// again, for text without carriage returns that does not end in a line break.
pub proof fn lemma_lines_roundtrip(s: Seq<char>)
    requires
        !s.contains('\r'),
        s.len() == 0 || s.last() != '\n',
    ensures
        join_lines(text_lines(s)) == s,
    decreases s.len(),
{
    lemma_find_char_props(s, '\n');
    if s.len() > 0 {
        match find_char(s, '\n') {
            Some(i) => {
                let a = s.subrange(0, i);
                let b = s.subrange(i + 1, s.len() as int);
                assert(!a.contains('\r')) by {
                    if a.contains('\r') {
                        let k = choose|k: int| 0 <= k < a.len() && a[k] == '\r';
                        assert(s[k] == '\r');
                    }
                }
                assert(strip_cr(a) == a) by {
                    if a.len() > 0 {
                        assert(a.last() == s[i - 1]);
                        assert(s[i - 1] != '\r') by {
                            if s[i - 1] == '\r' {
                                assert(s.contains('\r'));
                            }
                        }
                    }
                }
                assert(b.len() > 0);
                assert(b.last() == s.last());
                assert(!b.contains('\r')) by {
                    if b.contains('\r') {
                        let k = choose|k: int| 0 <= k < b.len() && b[k] == '\r';
                        assert(s[i + 1 + k] == '\r');
                    }
                }
                lemma_lines_roundtrip(b);
                lemma_find_char_props(b, '\n');
                assert(text_lines(b).len() > 0);
                lemma_join_lines_cons(a, text_lines(b));
                assert(a + seq!['\n'] + b =~= s);
            },
            None => {},
        }
    }
}

/// The last cue text that is not empty, if any.
pub open spec fn last_nonempty(texts: Seq<Seq<char>>) -> Option<Seq<char>>
    decreases texts.len(),
{
    if texts.len() == 0 {
        None
    } else if texts.last().len() > 0 {
        Some(texts.last())
    } else {
        last_nonempty(texts.drop_last())
    }
}

proof fn lemma_dedup_step_no_cr(result: Seq<char>, text: Seq<char>)
    requires
        !result.contains('\r'),
        !text.contains('\r'),
    ensures
        !dedup_step(result, text).contains('\r'),
{
    if text.len() > 0 {
        let ov = overlap(result, text);
        lemma_overlap_bounds(result, text, text.len());
        let base = if ov == 0 && needs_separator(result, text) {
            result.push('\n')
        } else {
            result
        };
        let out = dedup_step(result, text);
        assert(out == base + text.subrange(ov as int, text.len() as int));
        if out.contains('\r') {
            let k = choose|k: int| 0 <= k < out.len() && out[k] == '\r';
            if k < base.len() {
                if k < result.len() {
                    assert(out[k] == result[k]);
                    assert(result.contains('\r'));
                } else {
                    assert(out[k] == '\n');
                }
            } else {
                assert(out[k] == text[ov + k - base.len()]);
                assert(text.contains('\r'));
            }
        }
    }
}

proof fn lemma_dedup_no_cr(texts: Seq<Seq<char>>)
    requires
        forall|i: int| 0 <= i < texts.len() ==> !(#[trigger] texts[i]).contains('\r'),
    ensures
        !deduplicated(texts).contains('\r'),
    decreases texts.len(),
{
    if texts.len() > 0 {
        let rest = texts.drop_last();
        assert forall|i: int| 0 <= i < rest.len() implies !(#[trigger] rest[i]).contains('\r') by {
            assert(rest[i] == texts[i]);
        }
        lemma_dedup_no_cr(rest);
        assert(!texts[texts.len() - 1].contains('\r'));
        lemma_dedup_step_no_cr(deduplicated(rest), texts.last());
    }
}

proof fn lemma_dedup_ends_with_last(texts: Seq<Seq<char>>)
    ensures
        match last_nonempty(texts) {
            Some(t) => t.len() > 0 && ends_with(deduplicated(texts), t),
            None => deduplicated(texts).len() == 0,
        },
    decreases texts.len(),
{
    if texts.len() > 0 {
        lemma_dedup_ends_with_last(texts.drop_last());
        if texts.last().len() > 0 {
            lemma_dedup_ends_with_text(deduplicated(texts.drop_last()), texts.last());
        }
    }
}

/// The readable text of cue texts reads back unchanged through a TXT
/// document: split into lines and joined again with `\n`, it is the same
/// text, provided no cue text holds a carriage return and the last
/// non-empty one does not end with a line break.
pub proof fn lemma_dedup_matches_txt_lines(texts: Seq<Seq<char>>)
    requires
        forall|i: int| 0 <= i < texts.len() ==> !(#[trigger] texts[i]).contains('\r'),
        last_nonempty(texts) matches Some(t) ==> t.last() != '\n',
    ensures
        join_lines(text_lines(deduplicated(texts))) == deduplicated(texts),
{
    let s = deduplicated(texts);
    lemma_dedup_no_cr(texts);
    lemma_dedup_ends_with_last(texts);
    if let Some(t) = last_nonempty(texts) {
        assert(t.len() > 0);
        assert(s.subrange(s.len() - t.len(), s.len() as int) == t);
        assert(s.last() == s.subrange(s.len() - t.len(), s.len() as int)[t.len() - 1]);
    }
    lemma_lines_roundtrip(s);
}

proof fn lemma_overlap_is_longest(existing: Seq<char>, incoming: Seq<char>, limit: nat, k: int)
    requires
        limit <= incoming.len(),
        overlap_upto(existing, incoming, limit) < k <= limit,
    ensures
        !ends_with(existing, incoming.subrange(0, k)),
    decreases limit,
{
    if limit > 0 && k < limit {
        lemma_overlap_is_longest(existing, incoming, (limit - 1) as nat, k);
    }
}

/// Adding a non-empty cue text appends the part of it that the output does
/// not already end with: `k` is the longest start of the text that ends the
/// output, and the rest of the text follows the output. A line break goes
/// in between only when nothing overlaps and both the output's last
/// character and the text's first are not whitespace; in every other case
/// the output is followed directly by the rest of the text.
pub proof fn lemma_dedup_step_appends_unseen_part(result: Seq<char>, text: Seq<char>)
    requires
        text.len() > 0,
    ensures
        exists|k: int|
            #![trigger text.subrange(0, k)]
            0 <= k <= text.len() && ends_with(result, text.subrange(0, k)) && (forall|longer: int|
                k < longer <= text.len() ==> !ends_with(result, #[trigger] text.subrange(0, longer)))
                && dedup_step(result, text) == if k == 0 && result.len() > 0 && !is_ws(
                result.last(),
            ) && !is_ws(text[0]) {
                result + seq!['\n'] + text
            } else {
                result + text.subrange(k, text.len() as int)
            },
{
    let ov = overlap(result, text);
    lemma_overlap_bounds(result, text, text.len());
    lemma_overlap_ends_with(result, text, text.len());
    assert forall|longer: int| ov < longer <= text.len() implies !ends_with(
        result,
        #[trigger] text.subrange(0, longer),
    ) by {
        lemma_overlap_is_longest(result, text, text.len(), longer);
    }
    if ov == 0 {
        assert(text.subrange(0, text.len() as int) =~= text);
        assert(result.push('\n') =~= result + seq!['\n']);
    }
    assert(ends_with(result, text.subrange(0, ov as int)));
}

} // verus!
