//! Cue payload text: timed-text markup (`<00:00:01.000><c> word</c>`) is
//! split into fragments, and readable text is what remains without tags.
use crate::text::{
    find_char, find_char_in, find_seq, find_seq_in, is_blank, is_blank_in, lemma_find_char_props,
    lemma_find_seq_props, occurs_at, occurs_at_exec, starts_with, str_chars, string_of_range,
};
use crate::timestamp::{parse_timestamp_in, spec_parse_timestamp, VttTimestamp};
use vstd::prelude::*;
use vstd::string::StringExecFns;

verus! {

/// A semantic cue payload fragment.
#[derive(Debug, Clone, PartialEq, Eq)]
pub enum VttCueFragment {
    Text(String),
    TimestampedText { timestamp: VttTimestamp, text: String },
    RawTag(String),
}

/// The mathematical value of a fragment.
pub enum FragmentModel {
    Text(Seq<char>),
    TimestampedText(u64, Seq<char>),
    RawTag(Seq<char>),
}

impl View for VttCueFragment {
    type V = FragmentModel;

    open spec fn view(&self) -> FragmentModel {
        match self {
            VttCueFragment::Text(t) => FragmentModel::Text(t@),
            VttCueFragment::TimestampedText { timestamp, text } => FragmentModel::TimestampedText(
                timestamp.total_millis,
                text@,
            ),
            VttCueFragment::RawTag(t) => FragmentModel::RawTag(t@),
        }
    }
}

pub open spec fn fragments_view(v: Seq<VttCueFragment>) -> Seq<FragmentModel> {
    v.map_values(|f: VttCueFragment| f@)
}

pub open spec fn open_c_tag() -> Seq<char> {
    seq!['<', 'c', '>']
}

pub open spec fn close_c_tag() -> Seq<char> {
    seq!['<', '/', 'c', '>']
}

/// The fragments of a payload. Scanning from the left: text before a `<` is
/// kept unless blank; a `<...>` tag holding a timestamp becomes a timed
/// fragment, taking the text of a directly following `<c>...</c>`; any other
/// `<` is kept as text of its own. A `<` without a later `>`, or a `<c>`
/// without `</c>`, ends the scan and the rest of the payload, from that point
/// on, is kept once as text.
pub open spec fn spec_payload_fragments(rest: Seq<char>) -> Seq<FragmentModel>
    decreases rest.len(),
{
    proof {
        lemma_find_char_props(rest, '<');
    }
    match find_char(rest, '<') {
        None => if !is_blank(rest) {
            seq![FragmentModel::Text(rest)]
        } else {
            seq![]
        },
        Some(i) => {
            let pre = if i > 0 && !is_blank(rest.subrange(0, i)) {
                seq![FragmentModel::Text(rest.subrange(0, i))]
            } else {
                seq![]
            };
            let r = rest.subrange(i, rest.len() as int);
            proof {
                lemma_find_char_props(r, '>');
            }
            match find_char(r, '>') {
                None => pre + seq![FragmentModel::Text(r)],
                Some(j) => match spec_parse_timestamp(r.subrange(1, j)) {
                    Ok(ts) => {
                        let r2 = r.subrange(j + 1, r.len() as int);
                        if starts_with(r2, open_c_tag()) {
                            proof {
                                lemma_find_seq_props(r2, close_c_tag());
                            }
                            match find_seq(r2, close_c_tag()) {
                                Some(k) => pre + seq![
                                    FragmentModel::TimestampedText(ts, r2.subrange(3, k)),
                                ] + spec_payload_fragments(r2.subrange(k + 4, r2.len() as int)),
                                None => pre + seq![FragmentModel::Text(r2)],
                            }
                        } else {
                            pre + seq![FragmentModel::TimestampedText(ts, seq![])]
                                + spec_payload_fragments(r2)
                        }
                    },
                    Err(_) => pre + seq![FragmentModel::Text(seq!['<'])] + spec_payload_fragments(
                        r.subrange(1, r.len() as int),
                    ),
                },
            }
        },
    }
}

/// The readable text of a fragment.
pub open spec fn fragment_text(f: FragmentModel) -> Seq<char> {
    match f {
        FragmentModel::Text(t) => t,
        FragmentModel::TimestampedText(_, t) => t,
        FragmentModel::RawTag(t) => t,
    }
}

/// The readable texts of fragments, concatenated.
pub open spec fn fragments_text(fs: Seq<FragmentModel>) -> Seq<char>
    decreases fs.len(),
{
    if fs.len() == 0 {
        seq![]
    } else {
        fragments_text(fs.drop_last()) + fragment_text(fs.last())
    }
}

/// The readable text of a raw payload.
pub open spec fn spec_payload_plain_text(payload: Seq<char>) -> Seq<char> {
    fragments_text(spec_payload_fragments(payload))
}

/// A payload without markup reads as itself, and a blank one as nothing:
/// payload text is never altered by the projection.
pub proof fn lemma_plain_payload_reads_as_itself(payload: Seq<char>)
    requires
        !payload.contains('<'),
    ensures
        spec_payload_plain_text(payload) == if is_blank(payload) {
            seq![]
        } else {
            payload
        },
{
    lemma_find_char_props(payload, '<');
    if let Some(i) = find_char(payload, '<') {
        assert(payload[i] == '<');
    }
    assert(find_char(payload, '<') is None);
    if !is_blank(payload) {
        let fs = seq![FragmentModel::Text(payload)];
        assert(fs.drop_last() =~= Seq::<FragmentModel>::empty());
        assert(fragments_text(Seq::<FragmentModel>::empty()) == Seq::<char>::empty());
        assert(fs.last() == FragmentModel::Text(payload));
        assert(fragment_text(fs.last()) == payload);
        assert(fragments_text(fs) == fragments_text(fs.drop_last()) + fragment_text(fs.last()));
        assert(fragments_text(fs) =~= payload);
    } else {
        assert(fragments_text(Seq::<FragmentModel>::empty()) =~= Seq::<char>::empty());
    }
}

/// A `<` that no `>` closes is kept, with everything after it, exactly once:
/// such a payload reads back unchanged, but for a blank run before the `<`.
pub proof fn lemma_unclosed_tag_is_kept_once(before: Seq<char>, after: Seq<char>)
    requires
        !before.contains('<'),
        !before.contains('>'),
        !after.contains('>'),
    ensures
        spec_payload_plain_text(before + seq!['<'] + after) == if is_blank(before) {
            seq!['<'] + after
        } else {
            before + seq!['<'] + after
        },
{
    let payload = before + seq!['<'] + after;
    let i = before.len() as int;
    lemma_find_char_props(payload, '<');
    assert(payload[i] == '<');
    assert forall|j: int| 0 <= j < i implies payload[j] != '<' by {
        assert(payload[j] == before[j]);
    }
    assert(find_char(payload, '<') == Some(i)) by {
        match find_char(payload, '<') {
            Some(k) => {
                if k < i {
                    assert(payload[k] == before[k]);
                }
            },
            None => {},
        }
    }
    assert(payload.subrange(0, i) =~= before);
    let r = payload.subrange(i, payload.len() as int);
    assert(r =~= seq!['<'] + after);
    lemma_find_char_props(r, '>');
    assert(find_char(r, '>') is None) by {
        if let Some(k) = find_char(r, '>') {
            if k == 0 {
                assert(r[0] == '<');
            } else {
                assert(r[k] == after[k - 1]);
            }
        }
    }
    let tail = seq![FragmentModel::Text(r)];
    assert(tail.drop_last() =~= Seq::<FragmentModel>::empty());
    assert(fragments_text(Seq::<FragmentModel>::empty()) =~= Seq::<char>::empty());
    if i > 0 && !is_blank(before) {
        let fs = seq![FragmentModel::Text(before), FragmentModel::Text(r)];
        assert(spec_payload_fragments(payload) == fs);
        assert(fs.drop_last() =~= seq![FragmentModel::Text(before)]);
        let one = seq![FragmentModel::Text(before)];
        assert(one.drop_last() =~= Seq::<FragmentModel>::empty());
        assert(fragments_text(one) =~= before);
        assert(fragments_text(fs) =~= before + r);
        assert(before + r =~= payload);
    } else {
        assert(spec_payload_fragments(payload) == tail);
        assert(fragments_text(tail) =~= r);
        if !is_blank(before) {
            assert(before.len() == 0);
        }
    }
}

/// `a` can be read out of `b` by dropping characters: every character of
/// `a` occurs in `b`, in the same order, each at a position of its own.
pub open spec fn is_subsequence(a: Seq<char>, b: Seq<char>) -> bool
    decreases b.len(),
{
    if a.len() == 0 {
        true
    } else if b.len() == 0 {
        false
    } else if a.last() == b.last() {
        is_subsequence(a.drop_last(), b.drop_last())
    } else {
        is_subsequence(a, b.drop_last())
    }
}

proof fn lemma_subsequence_refl(a: Seq<char>)
    ensures
        is_subsequence(a, a),
    decreases a.len(),
{
    if a.len() > 0 {
        lemma_subsequence_refl(a.drop_last());
    }
}

proof fn lemma_subsequence_drop_last(a: Seq<char>, b: Seq<char>)
    requires
        a.len() > 0,
        is_subsequence(a, b),
    ensures
        is_subsequence(a.drop_last(), b),
    decreases b.len(),
{
    let a1 = a.drop_last();
    let b1 = b.drop_last();
    if a.last() == b.last() {
        if a1.len() > 0 && a1.last() == b.last() {
            lemma_subsequence_drop_last(a1, b1);
        }
    } else {
        lemma_subsequence_drop_last(a, b1);
        if a1.len() > 0 && a1.last() == b.last() {
            lemma_subsequence_drop_last(a1, b1);
        }
    }
}

proof fn lemma_subsequence_extend(a: Seq<char>, b: Seq<char>, c: Seq<char>)
    requires
        is_subsequence(a, b),
    ensures
        is_subsequence(a, b + c),
    decreases c.len(),
{
    if c.len() > 0 {
        let c1 = c.drop_last();
        lemma_subsequence_extend(a, b, c1);
        let bc = b + c;
        assert(bc.drop_last() =~= b + c1);
        if a.len() > 0 && a.last() == bc.last() {
            lemma_subsequence_drop_last(a, b + c1);
        }
    } else {
        assert(b + c =~= b);
    }
}

proof fn lemma_subsequence_concat(a1: Seq<char>, b1: Seq<char>, a2: Seq<char>, b2: Seq<char>)
    requires
        is_subsequence(a1, b1),
        is_subsequence(a2, b2),
    ensures
        is_subsequence(a1 + a2, b1 + b2),
    decreases b2.len(),
{
    if a2.len() == 0 {
        assert(a1 + a2 =~= a1);
        lemma_subsequence_extend(a1, b1, b2);
    } else {
        let a = a1 + a2;
        let b = b1 + b2;
        assert(a.last() == a2.last());
        assert(b.last() == b2.last());
        assert(b.drop_last() =~= b1 + b2.drop_last());
        if a2.last() == b2.last() {
            lemma_subsequence_concat(a1, b1, a2.drop_last(), b2.drop_last());
            assert(a.drop_last() =~= a1 + a2.drop_last());
        } else {
            lemma_subsequence_concat(a1, b1, a2, b2.drop_last());
        }
    }
}

/// `a` read out of `c` is also read out of `b + c`.
proof fn lemma_subsequence_skip(a: Seq<char>, b: Seq<char>, c: Seq<char>)
    requires
        is_subsequence(a, c),
    ensures
        is_subsequence(a, b + c),
{
    lemma_subsequence_concat(seq![], b, a, c);
    assert(Seq::<char>::empty() + a =~= a);
}

proof fn lemma_fragments_text_add(f1: Seq<FragmentModel>, f2: Seq<FragmentModel>)
    ensures
        fragments_text(f1 + f2) == fragments_text(f1) + fragments_text(f2),
    decreases f2.len(),
{
    if f2.len() == 0 {
        assert(f1 + f2 =~= f1);
        assert(fragments_text(f1) + Seq::<char>::empty() =~= fragments_text(f1));
    } else {
        lemma_fragments_text_add(f1, f2.drop_last());
        assert((f1 + f2).drop_last() =~= f1 + f2.drop_last());
        assert((f1 + f2).last() == f2.last());
        assert(fragments_text(f1) + fragments_text(f2.drop_last()) + fragment_text(f2.last())
            =~= fragments_text(f1) + (fragments_text(f2.drop_last()) + fragment_text(f2.last())));
    }
}

proof fn lemma_fragments_text_three(
    pre: Seq<FragmentModel>,
    x: FragmentModel,
    rest: Seq<FragmentModel>,
)
    ensures
        fragments_text(pre + seq![x] + rest) == fragments_text(pre) + fragment_text(x)
            + fragments_text(rest),
{
    let one = seq![x];
    assert(one.drop_last() =~= Seq::<FragmentModel>::empty());
    assert(fragments_text(Seq::<FragmentModel>::empty()) =~= Seq::<char>::empty());
    assert(fragments_text(one) =~= fragment_text(x));
    lemma_fragments_text_add(pre, one);
    lemma_fragments_text_add(pre + one, rest);
}

proof fn lemma_subsequence_of_suffix(t: Seq<char>, r: Seq<char>, start: int)
    requires
        0 <= start <= r.len(),
        is_subsequence(t, r.subrange(start, r.len() as int)),
    ensures
        is_subsequence(t, r),
{
    lemma_subsequence_skip(t, r.subrange(0, start), r.subrange(start, r.len() as int));
    assert(r.subrange(0, start) + r.subrange(start, r.len() as int) =~= r);
}

/// A text read out of the tag's tail, after the text between `<c>` and
/// `</c>`, is read out of the whole.
proof fn lemma_span_is_read(r2: Seq<char>, k: int, tt: Seq<char>)
    requires
        3 <= k,
        k + 4 <= r2.len(),
        is_subsequence(tt, r2.subrange(k + 4, r2.len() as int)),
    ensures
        is_subsequence(r2.subrange(3, k) + tt, r2),
{
    let inner = r2.subrange(3, k);
    assert(r2.subrange(k, r2.len() as int).subrange(4, r2.len() - k) =~= r2.subrange(
        k + 4,
        r2.len() as int,
    ));
    lemma_subsequence_of_suffix(tt, r2.subrange(k, r2.len() as int), 4);
    lemma_subsequence_refl(inner);
    lemma_subsequence_concat(inner, inner, tt, r2.subrange(k, r2.len() as int));
    assert(inner + r2.subrange(k, r2.len() as int) =~= r2.subrange(3, r2.len() as int));
    lemma_subsequence_of_suffix(inner + tt, r2, 3);
}

/// The fragments before a tag and those from the tag on are read out of the
/// text before the tag and the text from the tag on.
proof fn lemma_joined_is_read(
    pre: Seq<FragmentModel>,
    head: Seq<char>,
    x: FragmentModel,
    rec: Seq<FragmentModel>,
    r: Seq<char>,
)
    requires
        is_subsequence(fragments_text(pre), head),
        is_subsequence(fragment_text(x) + fragments_text(rec), r),
    ensures
        is_subsequence(fragments_text(pre + seq![x] + rec), head + r),
{
    lemma_fragments_text_three(pre, x, rec);
    lemma_subsequence_concat(fragments_text(pre), head, fragment_text(x) + fragments_text(rec), r);
    assert(fragments_text(pre) + fragment_text(x) + fragments_text(rec) =~= fragments_text(pre) + (
    fragment_text(x) + fragments_text(rec)));
}

/// The readable text of a payload is read out of the payload itself: every
/// character of it is a character of the payload, in the same order, and
/// none is given twice; what the projection leaves out is markup and blank
/// runs between tags.
#[verifier::rlimit(50)]
pub proof fn lemma_payload_text_is_read_from_payload(rest: Seq<char>)
    ensures
        is_subsequence(spec_payload_plain_text(rest), rest),
    decreases rest.len(),
{
    lemma_find_char_props(rest, '<');
    let fs = spec_payload_fragments(rest);
    let empty_fs = Seq::<FragmentModel>::empty();
    assert(fragments_text(empty_fs) =~= Seq::<char>::empty());
    match find_char(rest, '<') {
        None => {
            lemma_subsequence_refl(rest);
            if !is_blank(rest) {
                let one = seq![FragmentModel::Text(rest)];
                assert(one.drop_last() =~= empty_fs);
                assert(fragments_text(one) =~= rest);
            }
        },
        Some(i) => {
            let head = rest.subrange(0, i);
            let pre = if i > 0 && !is_blank(head) {
                seq![FragmentModel::Text(head)]
            } else {
                seq![]
            };
            assert(is_subsequence(fragments_text(pre), head)) by {
                if i > 0 && !is_blank(head) {
                    let one = seq![FragmentModel::Text(head)];
                    assert(one.drop_last() =~= empty_fs);
                    assert(fragments_text(one) =~= head);
                    lemma_subsequence_refl(head);
                }
            }
            let r = rest.subrange(i, rest.len() as int);
            assert(rest =~= head + r);
            lemma_find_char_props(r, '>');
            match find_char(r, '>') {
                None => {
                    let x = FragmentModel::Text(r);
                    assert(fs == pre + seq![x] + empty_fs);
                    lemma_subsequence_refl(r);
                    assert(r + fragments_text(empty_fs) =~= r);
                    lemma_joined_is_read(pre, head, x, empty_fs, r);
                },
                Some(j) => {
                    match spec_parse_timestamp(r.subrange(1, j)) {
                        Ok(ts) => {
                            let r2 = r.subrange(j + 1, r.len() as int);
                            if starts_with(r2, open_c_tag()) {
                                lemma_find_seq_props(r2, close_c_tag());
                                match find_seq(r2, close_c_tag()) {
                                    Some(k) => {
                                        assert(k >= 3) by {
                                            if k < 3 {
                                                assert(occurs_at(r2, close_c_tag(), k));
                                                assert(r2.subrange(k, k + 4)[0] == r2[k]);
                                                assert(r2.subrange(k, k + 4)[1] == r2[k + 1]);
                                                assert(r2.subrange(0, 3)[0] == r2[0]);
                                                assert(r2.subrange(0, 3)[1] == r2[1]);
                                                assert(r2.subrange(0, 3)[2] == r2[2]);
                                            }
                                        }
                                        let tail = r2.subrange(k + 4, r2.len() as int);
                                        let rec = spec_payload_fragments(tail);
                                        let x = FragmentModel::TimestampedText(
                                            ts,
                                            r2.subrange(3, k),
                                        );
                                        assert(fs == pre + seq![x] + rec);
                                        lemma_payload_text_is_read_from_payload(tail);
                                        lemma_span_is_read(r2, k, fragments_text(rec));
                                        lemma_subsequence_of_suffix(
                                            fragment_text(x) + fragments_text(rec),
                                            r,
                                            j + 1,
                                        );
                                        lemma_joined_is_read(pre, head, x, rec, r);
                                    },
                                    None => {
                                        let x = FragmentModel::Text(r2);
                                        assert(fs == pre + seq![x] + empty_fs);
                                        lemma_subsequence_refl(r2);
                                        assert(r2 + fragments_text(empty_fs) =~= r2);
                                        lemma_subsequence_of_suffix(r2, r, j + 1);
                                        lemma_joined_is_read(pre, head, x, empty_fs, r);
                                    },
                                }
                            } else {
                                let x = FragmentModel::TimestampedText(ts, seq![]);
                                let rec = spec_payload_fragments(r2);
                                assert(fs == pre + seq![x] + rec);
                                lemma_payload_text_is_read_from_payload(r2);
                                assert(fragment_text(x) + fragments_text(rec) =~= fragments_text(
                                    rec,
                                ));
                                lemma_subsequence_of_suffix(fragments_text(rec), r, j + 1);
                                lemma_joined_is_read(pre, head, x, rec, r);
                            }
                        },
                        Err(_) => {
                            let x = FragmentModel::Text(seq!['<']);
                            let r1 = r.subrange(1, r.len() as int);
                            let rec = spec_payload_fragments(r1);
                            assert(fs == pre + seq![x] + rec);
                            lemma_payload_text_is_read_from_payload(r1);
                            lemma_subsequence_refl(seq!['<']);
                            lemma_subsequence_concat(seq!['<'], seq!['<'], fragments_text(rec), r1);
                            assert(r[0] == '<');
                            assert(seq!['<'] + r1 =~= r);
                            lemma_joined_is_read(pre, head, x, rec, r);
                        },
                    }
                },
            }
        },
    }
}

/// One scanning step over `s[pos..]`: the fragments it yields, and where
/// scanning goes on (`None` when the payload is finished).
fn payload_step(s: &[char], pos: usize) -> (res: (Vec<VttCueFragment>, Option<usize>))
    requires
        pos <= s@.len(),
    ensures
        match res.1 {
            Some(next) => pos < next <= s@.len() && fragments_view(res.0@)
                + spec_payload_fragments(s@.subrange(next as int, s@.len() as int))
                == spec_payload_fragments(s@.subrange(pos as int, s@.len() as int)),
            None => fragments_view(res.0@) == spec_payload_fragments(
                s@.subrange(pos as int, s@.len() as int),
            ),
        },
{
    let n = s.len();
    let ghost rest = s@.subrange(pos as int, n as int);
    let mut fragments: Vec<VttCueFragment> = Vec::new();
    proof {
        lemma_find_char_props(rest, '<');
    }
    let lt = match find_char_in(s, pos, n, '<') {
        Some(lt) => lt,
        None => {
            if !is_blank_in(s, pos, n) {
                fragments.push(VttCueFragment::Text(string_of_range(s, pos, n)));
            }
            assert(fragments_view(fragments@) =~= spec_payload_fragments(rest));
            return (fragments, None);
        },
    };
    let ghost i = lt - pos;
    assert(rest.subrange(0, i) =~= s@.subrange(pos as int, lt as int));
    let ghost r = rest.subrange(i, rest.len() as int);
    assert(r =~= s@.subrange(lt as int, n as int));
    let ghost pre = if i > 0 && !is_blank(rest.subrange(0, i)) {
        seq![FragmentModel::Text(rest.subrange(0, i))]
    } else {
        seq![]
    };
    if lt > pos && !is_blank_in(s, pos, lt) {
        fragments.push(VttCueFragment::Text(string_of_range(s, pos, lt)));
    }
    assert(fragments_view(fragments@) =~= pre);
    let ghost mid = fragments@;
    proof {
        lemma_find_char_props(r, '>');
    }
    let gt = match find_char_in(s, lt, n, '>') {
        Some(gt) => gt,
        None => {
            fragments.push(VttCueFragment::Text(string_of_range(s, lt, n)));
            assert(fragments_view(fragments@) =~= pre + seq![FragmentModel::Text(r)]);
            return (fragments, None);
        },
    };
    let ghost j = gt - lt;
    assert(r[0] == '<');
    assert(j >= 1);
    assert(r.subrange(1, j) =~= s@.subrange(lt + 1, gt as int));
    match parse_timestamp_in(s, lt + 1, gt) {
        Ok(ms) => {
            let timestamp = VttTimestamp::from_total_millis(ms);
            let ghost r2 = r.subrange(j + 1, r.len() as int);
            assert(r2 =~= s@.subrange(gt + 1, n as int));
            let after = gt + 1;
            let tag = ['<', 'c', '>'];
            assert(tag@ =~= open_c_tag());
            let opens = occurs_at_exec(s, &tag, after);
            assert(opens == starts_with(r2, open_c_tag())) by {
                if opens || starts_with(r2, open_c_tag()) {
                    assert(r2.subrange(0, 3) =~= s@.subrange(after as int, after + 3));
                }
            }
            if opens {
                let close_tag = ['<', '/', 'c', '>'];
                assert(close_tag@ =~= close_c_tag());
                proof {
                    lemma_find_seq_props(r2, close_c_tag());
                }
                match find_seq_in(s, after, n, &close_tag) {
                    Some(close) => {
                        let ghost k = close - after;
                        assert(k >= 3) by {
                            if k < 3 {
                                assert(occurs_at(r2, close_c_tag(), k));
                                assert(r2.subrange(k, k + 4)[0] == r2[k]);
                                assert(r2.subrange(k, k + 4)[1] == r2[k + 1]);
                                assert(r2.subrange(0, 3)[0] == r2[0]);
                                assert(r2.subrange(0, 3)[1] == r2[1]);
                                assert(r2.subrange(0, 3)[2] == r2[2]);
                            }
                        }
                        fragments.push(
                            VttCueFragment::TimestampedText {
                                timestamp,
                                text: string_of_range(s, after + 3, close),
                            },
                        );
                        assert(r2.subrange(3, k) =~= s@.subrange(after + 3, close as int));
                        assert(r2.subrange(k + 4, r2.len() as int) =~= s@.subrange(
                            close + 4,
                            n as int,
                        ));
                        assert(fragments_view(fragments@) =~= pre + seq![
                            FragmentModel::TimestampedText(ms, r2.subrange(3, k)),
                        ]);
                        (fragments, Some(close + 4))
                    },
                    None => {
                        fragments.push(VttCueFragment::Text(string_of_range(s, after, n)));
                        assert(fragments_view(fragments@) =~= pre + seq![FragmentModel::Text(r2)]);
                        (fragments, None)
                    },
                }
            } else {
                fragments.push(VttCueFragment::TimestampedText { timestamp, text: String::new() });
                assert(fragments_view(fragments@) =~= pre + seq![
                    FragmentModel::TimestampedText(ms, seq![]),
                ]);
                (fragments, Some(after))
            }
        },
        Err(_) => {
            proof {
                reveal_strlit("<");
            }
            let lt_text = String::from_str("<");
            assert(lt_text@ =~= seq!['<']);
            fragments.push(VttCueFragment::Text(lt_text));
            assert(fragments_view(fragments@) =~= pre + seq![FragmentModel::Text(seq!['<'])]);
            assert(r.subrange(1, r.len() as int) =~= s@.subrange(lt + 1, n as int));
            (fragments, Some(lt + 1))
        },
    }
}

/// Parse a raw cue payload into semantic fragments.
pub fn parse_payload_fragments(payload: &str) -> (res: Vec<VttCueFragment>)
    ensures
        fragments_view(res@) == spec_payload_fragments(payload@),
{
    let chars = str_chars(payload);
    let s = chars.as_slice();
    let n = s.len();
    let mut fragments: Vec<VttCueFragment> = Vec::new();
    let mut pos: usize = 0;
    assert(s@.subrange(0, n as int) =~= s@);
    assert(fragments_view(fragments@) =~= seq![]);
    loop
        invariant
            n == s@.len(),
            s@ == payload@,
            pos <= n,
            fragments_view(fragments@) + spec_payload_fragments(s@.subrange(pos as int, n as int))
                == spec_payload_fragments(payload@),
        decreases n - pos,
    {
        let (mut step, next) = payload_step(s, pos);
        let ghost before = fragments@;
        let ghost stepped = step@;
        fragments.append(&mut step);
        assert(fragments_view(fragments@) =~= fragments_view(before) + fragments_view(stepped));
        match next {
            Some(p) => {
                pos = p;
            },
            None => {
                return fragments;
            },
        }
    }
}

/// Convert a raw cue payload into readable plain text. The text is read out
/// of the payload: no character is added or repeated.
pub fn cue_payload_plain_text(payload: &str) -> (res: String)
    ensures
        res@ == spec_payload_plain_text(payload@),
        is_subsequence(res@, payload@),
{
    proof {
        lemma_payload_text_is_read_from_payload(payload@);
    }
    let fragments = parse_payload_fragments(payload);
    let mut out = String::new();
    let mut i: usize = 0;
    while i < fragments.len()
        invariant
            i <= fragments@.len(),
            fragments_view(fragments@) == spec_payload_fragments(payload@),
            out@ == fragments_text(fragments_view(fragments@).subrange(0, i as int)),
        decreases fragments@.len() - i,
    {
        let ghost fs = fragments_view(fragments@);
        assert(fs.subrange(0, i + 1).drop_last() =~= fs.subrange(0, i as int));
        match &fragments[i] {
            VttCueFragment::Text(t) => out.append(t.as_str()),
            VttCueFragment::TimestampedText { text, .. } => out.append(text.as_str()),
            VttCueFragment::RawTag(t) => out.append(t.as_str()),
        }
        i += 1;
    }
    assert(fragments_view(fragments@).subrange(0, fragments@.len() as int) =~= fragments_view(
        fragments@,
    ));
    out
}

} // verus!
