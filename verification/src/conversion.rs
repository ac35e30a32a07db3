//! The `convert` command's decisions: which file is written, and which
//! conversion the pair of extensions selects.
//!
//! Paths are text with `/` between their parts. Trailing `/` and trailing
//! `.` parts are not part of the last name; the file name of a path is then
//! the text after its last `/`, and its parent the text before it (`/` for a
//! name at the root). The extension of a file name is what follows its last
//! `.`, provided that dot is not the name's first character; its stem is the
//! file name without `.` and extension.
//!
//! This is how `std::path` splits paths where `/` is the only separator.
//! Here `\` and drive prefixes are ordinary characters, so a caller on a
//! platform that also separates paths with `\` hands them over with `/`.
use crate::text::{slices_equal, str_chars, string_from_chars};
use vstd::prelude::*;

verus! {

/// Convert subtitle files into other formats.
#[derive(Debug, Clone, PartialEq, Eq)]
pub struct ConvertArgs {
    /// Input subtitle file.
    pub input_file: String,
    /// Output file path, or a known format like `txt` to infer the file name.
    pub output_file: String,
}

/// The conversions that are supported.
#[derive(Debug, Clone, Copy, PartialEq, Eq, Structural)]
pub enum ConversionKind {
    /// `.vtt -> .txt`: readable, deduplicated text.
    VttToText,
    /// `.vtt -> .vtt`: normalized WebVTT.
    VttToVtt,
}

/// What the `convert` command does.
#[derive(Debug, Clone, PartialEq, Eq)]
pub struct ConvertPlan {
    pub output_file: String,
    pub kind: ConversionKind,
}

/// Why a conversion cannot be planned.
#[derive(Debug, Clone, PartialEq, Eq)]
pub enum ConvertError {
    /// The input path has no file stem to name the output after.
    NoFileStem(String),
    /// The path has no file extension.
    NoFileExtension(String),
    /// No conversion exists between these (lowercased) extensions.
    Unsupported { from: String, to: String },
}

/// Index of the last `/` in `p`.
pub open spec fn last_slash(p: Seq<char>) -> Option<int>
    decreases p.len(),
{
    if p.len() == 0 {
        None
    } else if p.last() == '/' {
        Some(p.len() - 1)
    } else {
        last_slash(p.drop_last())
    }
}

/// `p` without trailing `/` characters and trailing `/.` parts.
pub open spec fn path_end(p: Seq<char>) -> Seq<char>
    decreases p.len(),
{
    if p.len() > 0 && p.last() == '/' {
        path_end(p.drop_last())
    } else if p.len() >= 2 && p.last() == '.' && p[p.len() - 2] == '/' {
        path_end(p.drop_last())
    } else {
        p
    }
}

/// The text after the last `/` of the path's end (all of it when there is
/// none).
pub open spec fn file_name_of(p: Seq<char>) -> Seq<char> {
    let q = path_end(p);
    match last_slash(q) {
        Some(i) => q.subrange(i + 1, q.len() as int),
        None => q,
    }
}

/// The text before the last `/` of the path's end: empty when there is
/// none, `/` when it is the first character.
pub open spec fn parent_of(p: Seq<char>) -> Seq<char> {
    let q = path_end(p);
    match last_slash(q) {
        Some(i) => if i == 0 {
            seq!['/']
        } else {
            q.subrange(0, i)
        },
        None => seq![],
    }
}

/// `dir` joined with a relative `name`.
pub open spec fn path_join(dir: Seq<char>, name: Seq<char>) -> Seq<char> {
    if dir.len() == 0 {
        name
    } else if dir.last() == '/' {
        dir + name
    } else {
        dir + seq!['/'] + name
    }
}

/// Index of the last `.` in `name`.
pub open spec fn last_dot(name: Seq<char>) -> Option<int>
    decreases name.len(),
{
    if name.len() == 0 {
        None
    } else if name.last() == '.' {
        Some(name.len() - 1)
    } else {
        last_dot(name.drop_last())
    }
}

/// The extension of a file name: the text after its last `.`, unless there
/// is no dot, the only candidate dot starts the name, or the name is `..`.
pub open spec fn name_extension(name: Seq<char>) -> Option<Seq<char>> {
    if name == seq!['.', '.'] {
        None
    } else {
        match last_dot(name) {
            Some(i) => if i > 0 {
                Some(name.subrange(i + 1, name.len() as int))
            } else {
                None
            },
            None => None,
        }
    }
}

/// The stem of a file name: the text before its extension's dot.
pub open spec fn name_stem(name: Seq<char>) -> Seq<char> {
    match name_extension(name) {
        Some(ext) => name.subrange(0, name.len() - ext.len() - 1),
        None => name,
    }
}

/// A path has a file name unless its last part is empty, `.` or `..`.
pub open spec fn has_file_name(p: Seq<char>) -> bool {
    let name = file_name_of(p);
    name.len() > 0 && name != seq!['.'] && name != seq!['.', '.']
}

pub open spec fn ascii_lower(c: char) -> char {
    if 'A' <= c && c <= 'Z' {
        ((c as u32) + 32) as char
    } else {
        c
    }
}

pub open spec fn ascii_lowercase(s: Seq<char>) -> Seq<char> {
    s.map_values(|c: char| ascii_lower(c))
}

/// The lowercased extension of a path, if it has one.
pub open spec fn path_extension_lower(p: Seq<char>) -> Option<Seq<char>> {
    if has_file_name(p) {
        match name_extension(file_name_of(p)) {
            Some(ext) => Some(ascii_lowercase(ext)),
            None => None,
        }
    } else {
        None
    }
}

pub open spec fn txt_word() -> Seq<char> {
    seq!['t', 'x', 't']
}

pub open spec fn vtt_word() -> Seq<char> {
    seq!['v', 't', 't']
}

/// A bare known format (`txt` or `vtt`) given as the output's file name.
pub open spec fn spec_infer_output_format(p: Seq<char>) -> Option<Seq<char>> {
    let name = file_name_of(p);
    if name == txt_word() {
        Some(txt_word())
    } else if name == vtt_word() {
        Some(vtt_word())
    } else {
        None
    }
}

/// The output path: as given, or, for a bare format, the input's file name
/// with its last extension replaced by that format, in the output argument's
/// directory.
pub open spec fn spec_resolve_output_path(input: Seq<char>, output: Seq<char>) -> Option<
    Seq<char>,
> {
    match spec_infer_output_format(output) {
        None => Some(output),
        Some(format) => if !has_file_name(input) {
            None
        } else {
            let stem = name_stem(file_name_of(input));
            Some(path_join(parent_of(output), stem) + seq!['.'] + format)
        },
    }
}

/// The conversion chosen by an input and output extension.
pub open spec fn spec_conversion_kind(from: Seq<char>, to: Seq<char>) -> Option<ConversionKind> {
    if from == vtt_word() && to == txt_word() {
        Some(ConversionKind::VttToText)
    } else if from == vtt_word() && to == vtt_word() {
        Some(ConversionKind::VttToVtt)
    } else {
        None
    }
}

pub proof fn lemma_last_slash_bounds(p: Seq<char>)
    ensures
        match last_slash(p) {
            Some(i) => 0 <= i < p.len() && p[i] == '/',
            None => true,
        },
    decreases p.len(),
{
    if p.len() > 0 && p.last() != '/' {
        lemma_last_slash_bounds(p.drop_last());
    }
}

pub proof fn lemma_last_dot_bounds(p: Seq<char>)
    ensures
        match last_dot(p) {
            Some(i) => 0 <= i < p.len() && p[i] == '.',
            None => true,
        },
    decreases p.len(),
{
    if p.len() > 0 && p.last() != '.' {
        lemma_last_dot_bounds(p.drop_last());
    }
}

/// No `/` follows the last one.
pub(crate) proof fn lemma_last_slash_is_last(p: Seq<char>)
    ensures
        match last_slash(p) {
            Some(i) => forall|j: int| i < j < p.len() ==> p[j] != '/',
            None => forall|j: int| 0 <= j < p.len() ==> p[j] != '/',
        },
    decreases p.len(),
{
    if p.len() > 0 && p.last() != '/' {
        let q = p.drop_last();
        lemma_last_slash_is_last(q);
        lemma_last_slash_bounds(q);
        assert(last_slash(p) == last_slash(q));
        match last_slash(q) {
            Some(i) => {
                assert forall|j: int| i < j < p.len() implies p[j] != '/' by {
                    if j < q.len() {
                        assert(q[j] == p[j]);
                    }
                }
            },
            None => {
                assert forall|j: int| 0 <= j < p.len() implies p[j] != '/' by {
                    if j < q.len() {
                        assert(q[j] == p[j]);
                    }
                }
            },
        }
    }
}

/// Text without `/` added at the end leaves the last `/` where it was.
pub(crate) proof fn lemma_last_slash_append(a: Seq<char>, b: Seq<char>)
    requires
        forall|j: int| 0 <= j < b.len() ==> b[j] != '/',
    ensures
        last_slash(a + b) == last_slash(a),
    decreases b.len(),
{
    if b.len() > 0 {
        assert((a + b).drop_last() =~= a + b.drop_last());
        assert((a + b).last() == b.last());
        lemma_last_slash_append(a, b.drop_last());
    } else {
        assert(a + b =~= a);
    }
}

/// Text without `.` added at the end leaves the last `.` where it was.
proof fn lemma_last_dot_append(a: Seq<char>, b: Seq<char>)
    requires
        forall|j: int| 0 <= j < b.len() ==> b[j] != '.',
    ensures
        last_dot(a + b) == last_dot(a),
    decreases b.len(),
{
    if b.len() > 0 {
        assert((a + b).drop_last() =~= a + b.drop_last());
        assert((a + b).last() == b.last());
        lemma_last_dot_append(a, b.drop_last());
    } else {
        assert(a + b =~= a);
    }
}

/// A file name holds no `/`, and the stem of a non-empty name is a
/// non-empty start of it.
pub(crate) proof fn lemma_name_parts(p: Seq<char>)
    requires
        has_file_name(p),
    ensures
        forall|j: int| 0 <= j < file_name_of(p).len() ==> file_name_of(p)[j] != '/',
        name_stem(file_name_of(p)).len() > 0,
        name_stem(file_name_of(p)).len() <= file_name_of(p).len(),
        name_stem(file_name_of(p)) == file_name_of(p).subrange(
            0,
            name_stem(file_name_of(p)).len() as int,
        ),
{
    let q = path_end(p);
    lemma_last_slash_bounds(q);
    lemma_last_slash_is_last(q);
    let name = file_name_of(p);
    match last_slash(q) {
        Some(i) => {
            assert forall|j: int| 0 <= j < name.len() implies name[j] != '/' by {
                assert(name[j] == q[i + 1 + j]);
            }
        },
        None => {},
    }
    lemma_last_dot_bounds(name);
    assert(name.subrange(0, name.len() as int) =~= name);
}

/// A name of at least two characters without `/`, joined to a directory,
/// is the file name of the result, and the directory its parent's text.
pub(crate) proof fn lemma_file_name_of_join(dir: Seq<char>, name: Seq<char>)
    requires
        name.len() >= 2,
        forall|j: int| 0 <= j < name.len() ==> name[j] != '/',
    ensures
        file_name_of(path_join(dir, name)) == name,
{
    let p = path_join(dir, name);
    let head = if dir.len() == 0 {
        Seq::<char>::empty()
    } else if dir.last() == '/' {
        dir
    } else {
        dir + seq!['/']
    };
    assert(p =~= head + name);
    assert(p.last() == name.last());
    assert(p[p.len() - 2] == name[name.len() - 2]);
    assert(path_end(p) == p);
    lemma_last_slash_append(head, name);
    if head.len() > 0 {
        assert(head.last() == '/');
        assert(head.drop_last() + seq!['/'] =~= head);
        assert(last_slash(head) == Some(head.len() - 1));
        assert(p.subrange(head.len() as int, p.len() as int) =~= name);
    } else {
        assert(p =~= name);
    }
}

/// A non-empty stem, a dot and a format word: the format is its extension.
proof fn lemma_format_extension(stem: Seq<char>, format: Seq<char>)
    requires
        stem.len() > 0,
        format == txt_word() || format == vtt_word(),
    ensures
        name_extension(stem + seq!['.'] + format) == Some(format),
        ascii_lowercase(format) == format,
{
    let named = stem + seq!['.'] + format;
    assert(forall|j: int| 0 <= j < format.len() ==> format[j] != '.');
    assert(named =~= (stem + seq!['.']) + format);
    lemma_last_dot_append(stem + seq!['.'], format);
    assert((stem + seq!['.']).drop_last() =~= stem);
    assert(last_dot(named) == Some(stem.len() as int));
    assert(named.len() == stem.len() + 4);
    assert(named != seq!['.', '.']);
    assert(named.subrange(stem.len() as int + 1, named.len() as int) =~= format);
    assert(ascii_lowercase(format) =~= format);
}

/// Where the output argument is a bare format, the output is the input's
/// name with its extension swapped for the format: its file name is the
/// input's stem, a dot and the format, and its extension is the format.
pub proof fn lemma_bare_format_swaps_extension(input: Seq<char>, output: Seq<char>)
    requires
        has_file_name(input),
        spec_infer_output_format(output) is Some,
    ensures
        spec_resolve_output_path(input, output) is Some,
        file_name_of(spec_resolve_output_path(input, output).unwrap()) == name_stem(
            file_name_of(input),
        ) + seq!['.'] + spec_infer_output_format(output).unwrap(),
        path_extension_lower(spec_resolve_output_path(input, output).unwrap())
            == spec_infer_output_format(output),
{
    let format = spec_infer_output_format(output).unwrap();
    let name = file_name_of(input);
    let stem = name_stem(name);
    lemma_name_parts(input);
    assert(format == txt_word() || format == vtt_word());
    let named = stem + seq!['.'] + format;
    assert forall|j: int| 0 <= j < named.len() implies named[j] != '/' by {
        if j < stem.len() {
            assert(named[j] == name[j]);
        } else if j > stem.len() {
            assert(named[j] == format[j - stem.len() - 1]);
        }
    }
    let dir = parent_of(output);
    let path = spec_resolve_output_path(input, output).unwrap();
    assert(path =~= path_join(dir, named));
    lemma_file_name_of_join(dir, named);
    lemma_format_extension(stem, format);
    assert(file_name_of(path).len() == stem.len() + 4);
}

/// Index of the last `c` in `s[0..to]`.
fn last_index_of(s: &[char], to: usize, c: char) -> (res: Option<usize>)
    requires
        to <= s@.len(),
    ensures
        c == '/' ==> res == match last_slash(s@.subrange(0, to as int)) {
            Some(i) => Some(i as usize),
            None => None::<usize>,
        },
        c == '.' ==> res == match last_dot(s@.subrange(0, to as int)) {
            Some(i) => Some(i as usize),
            None => None::<usize>,
        },
        match res {
            Some(i) => i < to,
            None => true,
        },
{
    let mut k = to;
    while k > 0
        invariant
            k <= to <= s@.len(),
            c == '/' ==> last_slash(s@.subrange(0, to as int)) == last_slash(
                s@.subrange(0, k as int),
            ),
            c == '.' ==> last_dot(s@.subrange(0, to as int)) == last_dot(s@.subrange(0, k as int)),
        decreases k,
    {
        assert(s@.subrange(0, k as int).drop_last() =~= s@.subrange(0, k - 1));
        if s[k - 1] == c {
            return Some(k - 1);
        }
        k -= 1;
    }
    None
}

/// The length of the path's end.
fn path_end_len(p: &[char]) -> (res: usize)
    ensures
        res <= p@.len(),
        path_end(p@) == p@.subrange(0, res as int),
{
    let mut end = p.len();
    assert(p@.subrange(0, end as int) =~= p@);
    while end > 0 && (p[end - 1] == '/' || (end >= 2 && p[end - 1] == '.' && p[end - 2] == '/'))
        invariant
            end <= p@.len(),
            path_end(p@) == path_end(p@.subrange(0, end as int)),
        decreases end,
    {
        assert(p@.subrange(0, end as int).drop_last() =~= p@.subrange(0, end - 1));
        end -= 1;
    }
    end
}

/// The bounds of a path's file name within it; the parent is the text
/// before the `/` that precedes it (that `/` itself at the start).
pub(crate) fn file_name_range(p: &[char]) -> (res: (usize, usize))
    ensures
        res.0 <= res.1 <= p@.len(),
        file_name_of(p@) == p@.subrange(res.0 as int, res.1 as int),
        parent_of(p@) == if res.0 == 0 {
            seq![]
        } else if res.0 == 1 {
            seq!['/']
        } else {
            p@.subrange(0, res.0 - 1)
        },
        res.0 > 0 ==> p@[res.0 - 1] == '/',
{
    let end = path_end_len(p);
    let ghost q = p@.subrange(0, end as int);
    proof {
        lemma_last_slash_bounds(q);
    }
    match last_index_of(p, end, '/') {
        Some(i) => {
            assert(q[i as int] == p@[i as int]);
            assert(q.subrange(i + 1, q.len() as int) =~= p@.subrange(i + 1, end as int));
            assert(q.subrange(0, i as int) =~= p@.subrange(0, i as int));
            (i + 1, end)
        },
        None => (0, end),
    }
}

/// How much of a path to keep so that a name appended to it lands in the
/// path's parent directory.
pub(crate) fn parent_prefix_len(p: &[char]) -> (res: usize)
    ensures
        res <= p@.len(),
        forall|n: Seq<char>| #[trigger] path_join(parent_of(p@), n) == p@.subrange(0, res as int) + n,
{
    let (start, _end) = file_name_range(p);
    if start <= 1 {
        assert forall|n: Seq<char>| #[trigger] path_join(parent_of(p@), n) == p@.subrange(0, start as int) + n by {
            if start == 1 {
                assert(p@.subrange(0, 1) =~= seq!['/']);
            } else {
                assert(Seq::<char>::empty() + n =~= n);
                assert(p@.subrange(0, 0) =~= Seq::<char>::empty());
            }
        }
        start
    } else if p[start - 2] == '/' {
        assert forall|n: Seq<char>| #[trigger] path_join(parent_of(p@), n) == p@.subrange(0, start - 1) + n by {
            assert(parent_of(p@).last() == p@[start - 2]);
        }
        start - 1
    } else {
        assert forall|n: Seq<char>| #[trigger] path_join(parent_of(p@), n) == p@.subrange(0, start as int) + n by {
            assert(parent_of(p@).last() == p@[start - 2]);
            assert(p@.subrange(0, start - 1) + seq!['/'] =~= p@.subrange(0, start as int));
            assert(p@.subrange(0, start - 1) + seq!['/'] + n =~= p@.subrange(0, start as int) + n);
        }
        start
    }
}

/// The extension of a file name, as a range of it.
fn name_extension_range(name: &[char]) -> (res: Option<usize>)
    ensures
        match res {
            Some(start) => 0 < start <= name@.len() && name_extension(name@) == Some(
                name@.subrange(start as int, name@.len() as int),
            ),
            None => name_extension(name@) is None,
        },
{
    let dots = ['.', '.'];
    assert(dots@ =~= seq!['.', '.']);
    if slices_equal(name, &dots) {
        return None;
    }
    assert(name@.subrange(0, name@.len() as int) =~= name@);
    proof {
        lemma_last_dot_bounds(name@);
    }
    match last_index_of(name, name.len(), '.') {
        Some(i) => if i > 0 {
            Some(i + 1)
        } else {
            None
        },
        None => None,
    }
}

/// The stem of a file name.
pub(crate) fn name_stem_of(name: &[char]) -> (res: Vec<char>)
    ensures
        res@ == name_stem(name@),
{
    match name_extension_range(name) {
        Some(start) => crate::text::sub_vec(name, 0, start - 1),
        None => crate::text::sub_vec(name, 0, name.len()),
    }
}

/// Whether a path has a file name.
pub(crate) fn has_file_name_exec(p: &[char]) -> (res: bool)
    ensures
        res == has_file_name(p@),
{
    let (start, end) = file_name_range(p);
    let name = vstd::slice::slice_subrange(p, start, end);
    let dot = ['.'];
    let dots = ['.', '.'];
    assert(dot@ =~= seq!['.']);
    assert(dots@ =~= seq!['.', '.']);
    name.len() > 0 && !slices_equal(name, &dot) && !slices_equal(name, &dots)
}

/// ASCII letters in lowercase.
fn lowercase_ascii(s: &[char]) -> (res: Vec<char>)
    ensures
        res@ == ascii_lowercase(s@),
{
    let mut out: Vec<char> = Vec::new();
    let mut i: usize = 0;
    while i < s.len()
        invariant
            i <= s@.len(),
            out@ == ascii_lowercase(s@.subrange(0, i as int)),
        decreases s@.len() - i,
    {
        let c = s[i];
        let lower = if 'A' <= c && c <= 'Z' {
            ((c as u32) + 32) as u8 as char
        } else {
            c
        };
        assert(lower == ascii_lower(c));
        out.push(lower);
        assert(out@ =~= ascii_lowercase(s@.subrange(0, i + 1)));
        i += 1;
    }
    assert(s@.subrange(0, s@.len() as int) =~= s@);
    out
}

/// The lowercased extension of a path.
pub fn lowercase_extension(path: &str) -> (res: Result<String, ConvertError>)
    ensures
        match res {
            Ok(ext) => path_extension_lower(path@) == Some(ext@),
            Err(e) => path_extension_lower(path@) is None && (e matches ConvertError::NoFileExtension(
                p,
            ) && p@ == path@),
        },
{
    let chars = str_chars(path);
    let p = chars.as_slice();
    if !has_file_name_exec(p) {
        return Err(ConvertError::NoFileExtension(String::from_str(path)));
    }
    let (start, end) = file_name_range(p);
    let name = vstd::slice::slice_subrange(p, start, end);
    match name_extension_range(name) {
        Some(ext_start) => {
            let ext = vstd::slice::slice_subrange(name, ext_start, name.len());
            let lower = lowercase_ascii(ext);
            Ok(string_from_chars(lower.as_slice()))
        },
        None => Err(ConvertError::NoFileExtension(String::from_str(path))),
    }
}

/// A bare known format given as the output's file name.
pub fn infer_output_format(path: &str) -> (res: Option<&'static str>)
    ensures
        match res {
            Some(f) => spec_infer_output_format(path@) == Some(f@),
            None => spec_infer_output_format(path@) is None,
        },
{
    let chars = str_chars(path);
    let p = chars.as_slice();
    let (start, end) = file_name_range(p);
    let name = vstd::slice::slice_subrange(p, start, end);
    let txt = ['t', 'x', 't'];
    let vtt = ['v', 't', 't'];
    assert(txt@ =~= txt_word());
    assert(vtt@ =~= vtt_word());
    proof {
        reveal_strlit("txt");
        reveal_strlit("vtt");
    }
    if slices_equal(name, &txt) {
        assert("txt"@ =~= txt_word());
        Some("txt")
    } else if slices_equal(name, &vtt) {
        assert("vtt"@ =~= vtt_word());
        Some("vtt")
    } else {
        None
    }
}

/// The output path of a conversion.
pub fn resolve_output_path(input_file: &str, output_arg: &str) -> (res: Result<
    String,
    ConvertError,
>)
    ensures
        match res {
            Ok(out) => spec_resolve_output_path(input_file@, output_arg@) == Some(out@),
            Err(e) => spec_resolve_output_path(input_file@, output_arg@) is None && (
            e matches ConvertError::NoFileStem(p) && p@ == input_file@),
        },
{
    let format = match infer_output_format(output_arg) {
        None => return Ok(String::from_str(output_arg)),
        Some(f) => f,
    };
    let input = str_chars(input_file);
    if !has_file_name_exec(input.as_slice()) {
        return Err(ConvertError::NoFileStem(String::from_str(input_file)));
    }
    let (start, end) = file_name_range(input.as_slice());
    let name = vstd::slice::slice_subrange(input.as_slice(), start, end);
    let stem = name_stem_of(name);
    let output = str_chars(output_arg);
    let keep = parent_prefix_len(output.as_slice());
    let mut path = crate::text::sub_vec(output.as_slice(), 0, keep);
    crate::text::push_all(&mut path, stem.as_slice());
    path.push('.');
    let fmt = str_chars(format);
    crate::text::push_all(&mut path, fmt.as_slice());
    assert(path_join(parent_of(output_arg@), stem@) == output@.subrange(0, keep as int) + stem@);
    assert(path@ =~= spec_resolve_output_path(input_file@, output_arg@).unwrap());
    Ok(string_from_chars(path.as_slice()))
}

impl ConvertArgs {
    /// The output file and the conversion that the arguments ask for.
    pub fn plan(&self) -> (res: Result<ConvertPlan, ConvertError>)
        ensures
            match res {
                Ok(plan) => spec_resolve_output_path(self.input_file@, self.output_file@) == Some(
                    plan.output_file@,
                ) && path_extension_lower(self.input_file@) is Some && path_extension_lower(
                    plan.output_file@,
                ) is Some && spec_conversion_kind(
                    path_extension_lower(self.input_file@).unwrap(),
                    path_extension_lower(plan.output_file@).unwrap(),
                ) == Some(plan.kind),
                Err(ConvertError::NoFileStem(_)) => spec_resolve_output_path(
                    self.input_file@,
                    self.output_file@,
                ) is None,
                Err(ConvertError::NoFileExtension(_)) => spec_resolve_output_path(
                    self.input_file@,
                    self.output_file@,
                ) is Some && (path_extension_lower(self.input_file@) is None
                    || path_extension_lower(
                    spec_resolve_output_path(self.input_file@, self.output_file@).unwrap(),
                ) is None),
                Err(ConvertError::Unsupported { from, to }) => spec_resolve_output_path(
                    self.input_file@,
                    self.output_file@,
                ) is Some && path_extension_lower(self.input_file@) == Some(from@)
                    && path_extension_lower(
                    spec_resolve_output_path(self.input_file@, self.output_file@).unwrap(),
                ) == Some(to@) && spec_conversion_kind(from@, to@) is None,
            },
    {
        let output_file = match resolve_output_path(
            self.input_file.as_str(),
            self.output_file.as_str(),
        ) {
            Ok(p) => p,
            Err(e) => return Err(e),
        };
        let from = match lowercase_extension(self.input_file.as_str()) {
            Ok(x) => x,
            Err(e) => return Err(e),
        };
        let to = match lowercase_extension(output_file.as_str()) {
            Ok(x) => x,
            Err(e) => return Err(e),
        };
        let from_chars = str_chars(from.as_str());
        let to_chars = str_chars(to.as_str());
        let vtt = ['v', 't', 't'];
        let txt = ['t', 'x', 't'];
        assert(txt@ =~= txt_word());
        assert(vtt@ =~= vtt_word());
        if slices_equal(from_chars.as_slice(), &vtt) && slices_equal(to_chars.as_slice(), &txt) {
            Ok(ConvertPlan { output_file, kind: ConversionKind::VttToText })
        } else if slices_equal(from_chars.as_slice(), &vtt) && slices_equal(to_chars.as_slice(), &vtt) {
            Ok(ConvertPlan { output_file, kind: ConversionKind::VttToVtt })
        } else {
            Err(ConvertError::Unsupported { from, to })
        }
    }
}

} // verus!
