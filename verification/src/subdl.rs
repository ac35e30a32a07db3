//! SubDL command decisions: request checks, the download path taken from a
//! returned URL, response summaries and the name of a saved subtitle.
use crate::conversion::{
    ascii_lower, ascii_lowercase, file_name_of, file_name_range, has_file_name, has_file_name_exec,
    name_stem, name_stem_of,
};
use crate::clock::{chrono_rfc3339, rfc3339, within_chrono_range};
use crate::conversion::{parent_of, parent_prefix_len, path_join};
use crate::extract::{is_ascii_alnum, opt_view};
use crate::text::{
    decimal_digits, find_char, find_char_in, lemma_find_char_props, push_all, str_chars, string_from_chars,
    string_of_range,
};
use vstd::prelude::*;
use vstd::string::StringExecFns;

verus! {

/// Why a SubDL command cannot go on.
#[derive(Debug, Clone, Copy, PartialEq, Eq, Structural)]
pub enum SubdlError {
    /// `--language` must contain only letters, digits, or hyphens.
    InvalidLanguage,
    /// `--ttl-minutes` must be between 1 and 60.
    TtlOutOfRange,
    /// SubDL returned an unexpected download path.
    UnexpectedDownloadPath,
    /// `--pick` must name a candidate shown by subtitle search.
    InvalidPick,
    /// The file path has no file name.
    NoFileName,
    /// A lease expiry that cannot be written as a date.
    InvalidExpiry,
}

/// Download a subtitle for a local video file.
#[derive(Debug, Clone, PartialEq, Eq)]
pub struct SubdlSubtitleDownloadArgs {
    /// Existing local video file to match by release filename.
    pub file: String,
    /// Subtitle language code, such as en or fr. Defaults to en.
    pub language: Option<String>,
    /// Directory in which to save the subtitle. Defaults to the current directory.
    pub output_dir: Option<String>,
    /// One-based candidate number from `subdl subtitle search`.
    pub pick: Option<usize>,
    /// Replace an existing subtitle file.
    pub force: bool,
}

/// Read a SubDL key from 1Password once and cache it for a bounded session.
#[derive(Debug, Clone, PartialEq, Eq)]
pub struct SubdlLoginArgs {
    /// Lease lifetime in whole minutes (1 to 60, default 15).
    pub ttl_minutes: Option<u32>,
}

pub open spec fn default_language() -> Seq<char> {
    seq!['e', 'n']
}

/// Non-empty, and only ASCII letters, digits and hyphens.
pub open spec fn language_code_ok(l: Seq<char>) -> bool {
    l.len() > 0 && forall|i: int| 0 <= i < l.len() ==> is_ascii_alnum(#[trigger] l[i]) || l[i] == '-'
}

/// The language asked for (English by default), lowercased; it must be
/// non-empty and made of ASCII letters, digits and hyphens.
pub open spec fn spec_language(language: Option<Seq<char>>) -> Option<Seq<char>> {
    let l = ascii_lowercase(
        match language {
            Some(l) => l,
            None => default_language(),
        },
    );
    if language_code_ok(l) {
        Some(l)
    } else {
        None
    }
}

/// Checks and normalizes a language code.
pub fn normalized_language(language: Option<&str>) -> (res: Result<String, SubdlError>)
    ensures
        match spec_language(
            match language {
                Some(l) => Some(l@),
                None => None,
            },
        ) {
            Some(l) => res matches Ok(s) && s@ == l,
            None => res == Err::<String, SubdlError>(SubdlError::InvalidLanguage),
        },
{
    let raw = match language {
        Some(l) => str_chars(l),
        None => {
            let mut v: Vec<char> = Vec::new();
            v.push('e');
            v.push('n');
            assert(v@ =~= default_language());
            v
        },
    };
    let mut lower: Vec<char> = Vec::new();
    let mut i: usize = 0;
    while i < raw.len()
        invariant
            i <= raw@.len(),
            raw@ == match language {
                Some(l) => l@,
                None => default_language(),
            },
            lower@ == ascii_lowercase(raw@.subrange(0, i as int)),
            forall|j: int| 0 <= j < i ==> is_ascii_alnum(#[trigger] lower@[j]) || lower@[j] == '-',
        decreases raw@.len() - i,
    {
        let c = raw[i];
        let l = if 'A' <= c && c <= 'Z' {
            ((c as u32) + 32) as u8 as char
        } else {
            c
        };
        assert(l == ascii_lower(c));
        if !(('0' <= l && l <= '9') || ('a' <= l && l <= 'z') || ('A' <= l && l <= 'Z') || l
            == '-') {
            proof {
                let full = ascii_lowercase(raw@);
                assert(full[i as int] == l);
                assert(!(is_ascii_alnum(full[i as int]) || full[i as int] == '-'));
            }
            return Err(SubdlError::InvalidLanguage);
        }
        lower.push(l);
        assert(lower@ =~= ascii_lowercase(raw@.subrange(0, i + 1)));
        i += 1;
    }
    assert(raw@.subrange(0, raw@.len() as int) =~= raw@);
    assert(lower@ =~= ascii_lowercase(raw@));
    if lower.len() == 0 {
        return Err(SubdlError::InvalidLanguage);
    }
    Ok(string_from_chars(lower.as_slice()))
}

impl SubdlSubtitleDownloadArgs {
    /// The language to search for and to name the file with.
    pub fn language(&self) -> (res: Result<String, SubdlError>)
        ensures
            match spec_language(
                match self.language {
                    Some(l) => Some(l@),
                    None => None,
                },
            ) {
                Some(l) => res matches Ok(s) && s@ == l,
                None => res == Err::<String, SubdlError>(SubdlError::InvalidLanguage),
            },
    {
        match &self.language {
            Some(l) => normalized_language(Some(l.as_str())),
            None => normalized_language(None),
        }
    }
}

/// `<dir>/<stem>.<language>.<extension>`.
pub open spec fn spec_subtitle_path(
    dir: Seq<char>,
    stem: Seq<char>,
    language: Seq<char>,
    extension: Seq<char>,
) -> Seq<char> {
    path_join(dir, stem + seq!['.'] + language + seq!['.'] + extension)
}

/// A downloaded subtitle is saved directly in the output directory, named
/// after the video's stem with the language and the subtitle's format, for
/// any video name and any accepted language.
pub proof fn lemma_subtitle_saved_in_directory(
    dir: Seq<char>,
    video: Seq<char>,
    language: Seq<char>,
    extension: Seq<char>,
)
    requires
        has_file_name(video),
        language_code_ok(language),
        forall|j: int| 0 <= j < extension.len() ==> extension[j] != '/',
    ensures
        file_name_of(spec_subtitle_path(dir, name_stem(file_name_of(video)), language, extension))
            == name_stem(file_name_of(video)) + seq!['.'] + language + seq!['.'] + extension,
{
    let stem = name_stem(file_name_of(video));
    crate::conversion::lemma_name_parts(video);
    let name = stem + seq!['.'] + language + seq!['.'] + extension;
    assert forall|j: int| 0 <= j < name.len() implies name[j] != '/' by {
        let k1 = stem.len() as int;
        let k2 = k1 + 1 + language.len();
        if j < k1 {
            assert(name[j] == file_name_of(video)[j]);
        } else if j == k1 {
        } else if j < k2 {
            assert(name[j] == language[j - k1 - 1]);
            assert(is_ascii_alnum(language[j - k1 - 1]) || language[j - k1 - 1] == '-');
        } else if j == k2 {
        } else {
            assert(name[j] == extension[j - k2 - 1]);
        }
    }
    crate::conversion::lemma_file_name_of_join(dir, name);
}

/// Where a downloaded subtitle is saved: named after the video's stem with
/// the language and the subtitle's own extension.
pub fn subtitle_output_path(output_dir: &str, stem: &str, language: &str, extension: &str) -> (res:
    String)
    ensures
        res@ == spec_subtitle_path(output_dir@, stem@, language@, extension@),
{
    let dir = str_chars(output_dir);
    let mut out: Vec<char> = Vec::new();
    push_all(&mut out, dir.as_slice());
    if dir.len() > 0 && dir[dir.len() - 1] != '/' {
        out.push('/');
    }
    let ghost base = out@;
    let s = str_chars(stem);
    push_all(&mut out, s.as_slice());
    out.push('.');
    let l = str_chars(language);
    push_all(&mut out, l.as_slice());
    out.push('.');
    let e = str_chars(extension);
    push_all(&mut out, e.as_slice());
    assert(out@ =~= spec_subtitle_path(output_dir@, stem@, language@, extension@));
    string_from_chars(out.as_slice())
}

impl SubdlLoginArgs {
    /// The lease lifetime: 15 minutes unless given, and within 1..=60.
    pub fn ttl(&self) -> (res: Result<u32, SubdlError>)
        ensures
            match self.ttl_minutes {
                None => res == Ok::<u32, SubdlError>(15),
                Some(t) => res == if 1 <= t <= 60 {
                    Ok::<u32, SubdlError>(t)
                } else {
                    Err::<u32, SubdlError>(SubdlError::TtlOutOfRange)
                },
            },
    {
        let ttl = match self.ttl_minutes {
            Some(t) => t,
            None => 15,
        };
        if 1 <= ttl && ttl <= 60 {
            Ok(ttl)
        } else {
            Err(SubdlError::TtlOutOfRange)
        }
    }
}

/// The expiry of a stored lease as reported after login: RFC 3339 in UTC
/// with a `+00:00` offset, always given for an expiry within `chrono`'s
/// range.
pub fn lease_expiry_text(expires_at: i64) -> (res: Result<String, SubdlError>)
    ensures
        match chrono_rfc3339(expires_at as int) {
            Some(text) => res matches Ok(s) && s@ == text,
            None => res == Err::<String, SubdlError>(SubdlError::InvalidExpiry),
        },
        within_chrono_range(expires_at as int) ==> res is Ok,
{
    match rfc3339(expires_at) {
        Some(text) => Ok(text),
        None => Err(SubdlError::InvalidExpiry),
    }
}

pub open spec fn subtitle_dir_prefix() -> Seq<char> {
    seq!['/', 's', 'u', 'b', 't', 'i', 't', 'l', 'e', '/']
}

pub open spec fn zip_suffix() -> Seq<char> {
    seq!['.', 'z', 'i', 'p']
}

/// `s` without its leading `/` characters.
pub open spec fn trim_leading_slashes(s: Seq<char>) -> Seq<char>
    decreases s.len(),
{
    if s.len() > 0 && s[0] == '/' {
        trim_leading_slashes(s.drop_first())
    } else {
        s
    }
}

/// The path of a download URL returned by SubDL, without its query (which
/// can hold the key): it must start with `/subtitle/`, end with `.zip`, and
/// hold neither `..` nor `:`. The result is relative (no leading `/`).
pub open spec fn spec_download_path(raw_url: Seq<char>) -> Option<Seq<char>> {
    let path = match find_char(raw_url, '?') {
        Some(i) => raw_url.subrange(0, i),
        None => raw_url,
    };
    if crate::text::starts_with(path, subtitle_dir_prefix()) && !crate::text::contains_seq(
        path,
        seq!['.', '.'],
    ) && !path.contains(':') && crate::text::ends_with(path, zip_suffix()) {
        Some(trim_leading_slashes(path))
    } else {
        None
    }
}

proof fn lemma_trim_leading_slashes_suffix(s: Seq<char>)
    ensures
        exists|k: int| 0 <= k <= s.len() && trim_leading_slashes(s) == s.subrange(k, s.len() as int),
    decreases s.len(),
{
    if s.len() > 0 && s[0] == '/' {
        lemma_trim_leading_slashes_suffix(s.drop_first());
        let k = choose|k: int|
            0 <= k <= s.drop_first().len() && trim_leading_slashes(s.drop_first())
                == s.drop_first().subrange(k, s.drop_first().len() as int);
        assert(s.drop_first().subrange(k, s.drop_first().len() as int) =~= s.subrange(
            k + 1,
            s.len() as int,
        ));
    } else {
        assert(s.subrange(0, s.len() as int) =~= s);
    }
}

/// The path used for a download never holds a `?`: the query of the URL
/// that SubDL returned, which can carry the key, is always left out.
pub proof fn lemma_download_path_has_no_query(raw_url: Seq<char>)
    ensures
        match spec_download_path(raw_url) {
            Some(p) => !p.contains('?'),
            None => true,
        },
{
    lemma_find_char_props(raw_url, '?');
    let path = match find_char(raw_url, '?') {
        Some(i) => raw_url.subrange(0, i),
        None => raw_url,
    };
    assert(!path.contains('?')) by {
        if path.contains('?') {
            let j = choose|j: int| 0 <= j < path.len() && path[j] == '?';
            assert(raw_url[j] == '?');
        }
    }
    lemma_trim_leading_slashes_suffix(path);
    let k = choose|k: int| 0 <= k <= path.len() && trim_leading_slashes(path) == path.subrange(k, path.len() as int);
    assert(!trim_leading_slashes(path).contains('?')) by {
        let t = trim_leading_slashes(path);
        if t.contains('?') {
            let j = choose|j: int| 0 <= j < t.len() && t[j] == '?';
            assert(path[k + j] == '?');
        }
    }
}

/// The relative download path of a URL that SubDL returned.
pub fn download_path(raw_url: &str) -> (res: Result<String, SubdlError>)
    ensures
        match spec_download_path(raw_url@) {
            Some(p) => res matches Ok(s) && s@ == p,
            None => res == Err::<String, SubdlError>(SubdlError::UnexpectedDownloadPath),
        },
{
    let chars = str_chars(raw_url);
    let s = chars.as_slice();
    proof {
        assert(s@.subrange(0, s@.len() as int) =~= s@);
        lemma_find_char_props(s@, '?');
    }
    let end = match find_char_in(s, 0, s.len(), '?') {
        Some(q) => q,
        None => s.len(),
    };
    let path = vstd::slice::slice_subrange(s, 0, end);
    assert(path@ == match find_char(raw_url@, '?') {
        Some(i) => raw_url@.subrange(0, i),
        None => raw_url@,
    });
    let prefix = ['/', 's', 'u', 'b', 't', 'i', 't', 'l', 'e', '/'];
    let dots = ['.', '.'];
    let suffix = ['.', 'z', 'i', 'p'];
    let colon = [':'];
    assert(prefix@ =~= subtitle_dir_prefix());
    assert(dots@ =~= seq!['.', '.']);
    assert(suffix@ =~= zip_suffix());
    assert(colon@ =~= seq![':']);
    assert(path@.subrange(0, path@.len() as int) =~= path@);
    let n = path.len();
    let starts = crate::text::range_starts_with(path, 0, n, &prefix);
    let has_dots = crate::text::contains_chars(path, &dots);
    let has_colon = crate::text::contains_chars(path, &colon);
    assert(has_colon == path@.contains(':')) by {
        if path@.contains(':') {
            let k = choose|k: int| 0 <= k < path@.len() && path@[k] == ':';
            assert(crate::text::occurs_at(path@, seq![':'], k)) by {
                assert(path@.subrange(k, k + 1) =~= seq![':']);
            }
        }
        if has_colon {
            let k = choose|k: int| crate::text::occurs_at(path@, seq![':'], k);
            assert(path@[k] == path@.subrange(k, k + 1)[0]);
        }
    }
    let ends = n >= 4 && crate::text::range_equals(path, n - 4, n, &suffix);
    if !(starts && !has_dots && !has_colon && ends) {
        return Err(SubdlError::UnexpectedDownloadPath);
    }
    let mut k: usize = 0;
    while k < n && path[k] == '/'
        invariant
            k <= n == path@.len(),
            trim_leading_slashes(path@) == trim_leading_slashes(path@.subrange(k as int, n as int)),
        decreases n - k,
    {
        assert(path@.subrange(k as int, n as int).drop_first() =~= path@.subrange(
            k + 1,
            n as int,
        ));
        k += 1;
    }
    Ok(string_of_range(path, k, n))
}

/// Whether a response chunk still fits within `max_bytes` after `received` bytes.
pub fn accept_chunk(received: usize, chunk_len: usize, max_bytes: usize) -> (res: bool)
    ensures
        res == (chunk_len == 0 || received + chunk_len <= max_bytes),
{
    chunk_len <= max_bytes.saturating_sub(received)
}

/// The zero-based candidate named by a one-based `--pick`, if it exists.
pub fn pick_index(pick: usize, candidate_count: usize) -> (res: Result<usize, SubdlError>)
    ensures
        1 <= pick <= candidate_count ==> res == Ok::<usize, SubdlError>((pick - 1) as usize),
        !(1 <= pick <= candidate_count) ==> res == Err::<usize, SubdlError>(SubdlError::InvalidPick),
{
    if pick > 0 && pick - 1 < candidate_count {
        Ok(pick - 1)
    } else {
        Err(SubdlError::InvalidPick)
    }
}

/// The title that SubDL matched a release file name to.
#[derive(Debug, Clone, PartialEq, Eq)]
pub struct TitleMatch {
    pub title: String,
    pub year: Option<u16>,
    pub confidence: Option<String>,
    pub engine: Option<String>,
}

/// A movie or TV title known to SubDL. `media_type` is the response's
/// `type` field.
#[derive(Debug, Clone, PartialEq, Eq)]
pub struct Title {
    pub name: String,
    pub year: Option<u16>,
    pub media_type: Option<String>,
    pub imdb_id: Option<String>,
    pub tmdb_id: Option<u64>,
}

/// The titles found by a title search.
#[derive(Debug, Clone, PartialEq, Eq)]
pub struct TitleSearchResponse {
    pub results: Vec<Title>,
}

/// A SubDL account's plan and usage.
#[derive(Debug, Clone, PartialEq, Eq)]
pub struct AccountResponse {
    pub plan: Plan,
    pub usage: Usage,
}

#[derive(Debug, Clone, PartialEq, Eq)]
pub struct Plan {
    pub name: String,
}

#[derive(Debug, Clone, PartialEq, Eq)]
pub struct Usage {
    pub search: Quota,
    pub downloads: Quota,
}

#[derive(Debug, Clone, Copy, PartialEq, Eq, Structural)]
pub struct Quota {
    pub used: u64,
    pub limit: u64,
    pub remaining: u64,
}

fn copy_opt(o: &Option<String>) -> (res: Option<String>)
    ensures
        opt_view(res) == opt_view(*o),
{
    match o {
        Some(s) => Some(s.clone()),
        None => None,
    }
}

/// Search movie and TV titles.
#[derive(Debug, Clone, PartialEq, Eq)]
pub struct SubdlTitleSearchArgs {
    /// Movie or TV title to find.
    pub query: String,
}

/// One line of a title search's output.
#[derive(Debug, Clone, PartialEq, Eq)]
pub struct TitleRow {
    pub name: String,
    pub year: Option<u16>,
    pub media_type: Option<String>,
    pub imdb_id: Option<String>,
    pub tmdb_id: Option<u64>,
}

/// The row shows every field of the title.
pub open spec fn row_of_title(row: TitleRow, title: Title) -> bool {
    &&& row.name@ == title.name@
    &&& row.year == title.year
    &&& opt_view(row.media_type) == opt_view(title.media_type)
    &&& opt_view(row.imdb_id) == opt_view(title.imdb_id)
    &&& row.tmdb_id == title.tmdb_id
}

impl SubdlTitleSearchArgs {
    /// The output of a title search: one row per title found, in order.
    pub fn rows(&self, response: &TitleSearchResponse) -> (res: Vec<TitleRow>)
        ensures
            res@.len() == response.results@.len(),
            forall|i: int| 0 <= i < res@.len() ==> row_of_title(#[trigger] res@[i], response.results@[i]),
    {
        let mut rows: Vec<TitleRow> = Vec::new();
        let mut i: usize = 0;
        while i < response.results.len()
            invariant
                i <= response.results@.len(),
                rows@.len() == i,
                forall|j: int| 0 <= j < i ==> row_of_title(#[trigger] rows@[j], response.results@[j]),
            decreases response.results@.len() - i,
        {
            let title = &response.results[i];
            rows.push(
                TitleRow {
                    name: title.name.clone(),
                    year: title.year,
                    media_type: copy_opt(&title.media_type),
                    imdb_id: copy_opt(&title.imdb_id),
                    tmdb_id: title.tmdb_id,
                },
            );
            i += 1;
        }
        rows
    }
}

/// Show plan and usage.
#[derive(Debug, Clone, Copy, PartialEq, Eq, Structural)]
pub struct SubdlAccountShowArgs;

/// An account's plan with the used, allowed and remaining searches and
/// downloads.
#[derive(Debug, Clone, PartialEq, Eq)]
pub struct AccountReport {
    pub plan: String,
    pub searches_used: u64,
    pub searches_limit: u64,
    pub searches_remaining: u64,
    pub downloads_used: u64,
    pub downloads_limit: u64,
    pub downloads_remaining: u64,
}

impl SubdlAccountShowArgs {
    /// The report of an account.
    pub fn report(&self, account: &AccountResponse) -> (res: AccountReport)
        ensures
            res.plan@ == account.plan.name@,
            res.searches_used == account.usage.search.used,
            res.searches_limit == account.usage.search.limit,
            res.searches_remaining == account.usage.search.remaining,
            res.downloads_used == account.usage.downloads.used,
            res.downloads_limit == account.usage.downloads.limit,
            res.downloads_remaining == account.usage.downloads.remaining,
    {
        AccountReport {
            plan: account.plan.name.clone(),
            searches_used: account.usage.search.used,
            searches_limit: account.usage.search.limit,
            searches_remaining: account.usage.search.remaining,
            downloads_used: account.usage.downloads.used,
            downloads_limit: account.usage.downloads.limit,
            downloads_remaining: account.usage.downloads.remaining,
        }
    }
}

/// The file name of a path, if it has one.
pub fn file_name_text(path: &str) -> (res: Result<String, SubdlError>)
    ensures
        match res {
            Ok(name) => has_file_name(path@) && name@ == file_name_of(path@),
            Err(e) => !has_file_name(path@) && e == SubdlError::NoFileName,
        },
{
    let chars = str_chars(path);
    if !has_file_name_exec(chars.as_slice()) {
        return Err(SubdlError::NoFileName);
    }
    let (start, end) = file_name_range(chars.as_slice());
    Ok(string_of_range(chars.as_slice(), start, end))
}

/// Show ranked subtitle matches for a local video file.
#[derive(Debug, Clone, PartialEq, Eq)]
pub struct SubdlSubtitleSearchArgs {
    /// Local video file or release filename to match.
    pub file: String,
    /// Subtitle language code, such as en or fr. Defaults to en.
    pub language: Option<String>,
}

impl SubdlSubtitleSearchArgs {
    /// The release file name and the language to search SubDL with.
    pub fn request(&self) -> (res: Result<(String, String), SubdlError>)
        ensures
            match res {
                Ok((name, language)) => has_file_name(self.file@) && name@ == file_name_of(self.file@)
                    && language@ == match self.language {
                    Some(l) => l@,
                    None => default_language(),
                },
                Err(e) => !has_file_name(self.file@) && e == SubdlError::NoFileName,
            },
    {
        let name = match file_name_text(self.file.as_str()) {
            Ok(n) => n,
            Err(e) => return Err(e),
        };
        let language = match &self.language {
            Some(l) => l.clone(),
            None => String::from_str("en"),
        };
        proof {
            reveal_strlit("en");
        }
        assert(language@ =~= match self.language {
            Some(l) => l@,
            None => default_language(),
        });
        Ok((name, language))
    }
}

/// A subtitle that SubDL offers for a release, without its match score
/// (kept beside the listing by index) and its download URL.
#[derive(Debug, Clone, PartialEq, Eq)]
pub struct SubtitleListing {
    pub name: String,
    pub release_name: String,
    pub lang: String,
    pub language: Option<String>,
}

/// One line of a subtitle search's output, without the match score.
#[derive(Debug, Clone, PartialEq, Eq)]
pub struct SubtitleRow {
    /// The one-based number to give `--pick`.
    pub pick: usize,
    pub title: String,
    pub year: Option<u16>,
    pub release_name: String,
    pub language: String,
    pub archive_name: String,
}

/// The title shown with every subtitle: the matched title, else the first
/// title found, else nothing.
pub open spec fn summary_title(title_match: Option<TitleMatch>, results: Seq<Title>) -> Seq<char> {
    match title_match {
        Some(m) => m.title@,
        None => if results.len() > 0 {
            results[0].name@
        } else {
            seq![]
        },
    }
}

pub open spec fn summary_year(title_match: Option<TitleMatch>) -> Option<u16> {
    match title_match {
        Some(m) => m.year,
        None => None,
    }
}

/// Row `i` shows subtitle `i` under the summary title.
pub open spec fn row_of_subtitle(
    row: SubtitleRow,
    i: int,
    listing: SubtitleListing,
    title: Seq<char>,
    year: Option<u16>,
) -> bool {
    &&& row.pick == i + 1
    &&& row.title@ == title
    &&& row.year == year
    &&& row.release_name@ == listing.release_name@
    &&& row.language@ == match listing.language {
        Some(l) => l@,
        None => listing.lang@,
    }
    &&& row.archive_name@ == listing.name@
}

/// The output of a subtitle search: each offered subtitle, numbered from 1,
/// with the title it was matched to. Download URLs never appear in it.
pub fn summarize(
    title_match: &Option<TitleMatch>,
    results: &[Title],
    subtitles: &[SubtitleListing],
) -> (res: Vec<SubtitleRow>)
    ensures
        res@.len() == subtitles@.len(),
        forall|i: int|
            0 <= i < res@.len() ==> row_of_subtitle(
                #[trigger] res@[i],
                i,
                subtitles@[i],
                summary_title(*title_match, results@),
                summary_year(*title_match),
            ),
{
    let title = match title_match {
        Some(m) => m.title.clone(),
        None => if results.len() > 0 {
            results[0].name.clone()
        } else {
            String::new()
        },
    };
    let year = match title_match {
        Some(m) => m.year,
        None => None,
    };
    let mut rows: Vec<SubtitleRow> = Vec::new();
    let mut i: usize = 0;
    while i < subtitles.len()
        invariant
            i <= subtitles@.len(),
            rows@.len() == i,
            title@ == summary_title(*title_match, results@),
            year == summary_year(*title_match),
            forall|j: int|
                0 <= j < i ==> row_of_subtitle(
                    #[trigger] rows@[j],
                    j,
                    subtitles@[j],
                    summary_title(*title_match, results@),
                    summary_year(*title_match),
                ),
        decreases subtitles@.len() - i,
    {
        let s = &subtitles[i];
        let language = match &s.language {
            Some(l) => l.clone(),
            None => s.lang.clone(),
        };
        rows.push(
            SubtitleRow {
                pick: i + 1,
                title: title.clone(),
                year,
                release_name: s.release_name.clone(),
                language,
                archive_name: s.name.clone(),
            },
        );
        i += 1;
    }
    rows
}

impl SubdlSubtitleDownloadArgs {
    /// The video's file name (matched against releases) and stem (naming
    /// the saved subtitle).
    pub fn video_names(&self) -> (res: Result<(String, String), SubdlError>)
        ensures
            match res {
                Ok((name, stem)) => has_file_name(self.file@) && name@ == file_name_of(self.file@)
                    && stem@ == name_stem(file_name_of(self.file@)),
                Err(e) => !has_file_name(self.file@) && e == SubdlError::NoFileName,
            },
    {
        let name = match file_name_text(self.file.as_str()) {
            Ok(n) => n,
            Err(e) => return Err(e),
        };
        let chars = str_chars(name.as_str());
        let stem = name_stem_of(chars.as_slice());
        Ok((name, string_from_chars(stem.as_slice())))
    }
}

/// `name` in the directory of `path`.
pub open spec fn sibling_path(path: Seq<char>, name: Seq<char>) -> Seq<char> {
    path_join(parent_of(path), name)
}

/// The hidden file that a replacing save writes first, beside the
/// subtitle: `.<file name>.teamy-subs-<process>-<time>-<attempt>.tmp`.
pub open spec fn staging_name(file_name: Seq<char>, process: nat, time: nat, attempt: nat) -> Seq<
    char,
> {
    seq!['.'] + file_name + ".teamy-subs-"@ + decimal_digits(process) + seq!['-']
        + decimal_digits(time) + seq!['-'] + decimal_digits(attempt) + ".tmp"@
}

/// Where a replacing save stages the subtitle before renaming it over
/// `path`: refused for a path without a file name.
pub fn staging_path(path: &str, process: u32, time: u128, attempt: u32) -> (res: Result<
    String,
    SubdlError,
>)
    ensures
        match res {
            Ok(staged) => has_file_name(path@) && staged@ == sibling_path(
                path@,
                staging_name(file_name_of(path@), process as nat, time as nat, attempt as nat),
            ),
            Err(e) => !has_file_name(path@) && e == SubdlError::NoFileName,
        },
{
    let chars = str_chars(path);
    if !has_file_name_exec(chars.as_slice()) {
        return Err(SubdlError::NoFileName);
    }
    let (start, end) = file_name_range(chars.as_slice());
    let keep = parent_prefix_len(chars.as_slice());
    let mut out = crate::text::sub_vec(chars.as_slice(), 0, keep);
    let ghost dir_part = out@;
    out.push('.');
    let name = vstd::slice::slice_subrange(chars.as_slice(), start, end);
    push_all(&mut out, name);
    let marker = str_chars(".teamy-subs-");
    push_all(&mut out, marker.as_slice());
    crate::text::push_decimal(process as u64, &mut out);
    out.push('-');
    crate::text::push_decimal_u128(time, &mut out);
    out.push('-');
    crate::text::push_decimal(attempt as u64, &mut out);
    let tmp = str_chars(".tmp");
    push_all(&mut out, tmp.as_slice());
    let ghost staged = staging_name(file_name_of(path@), process as nat, time as nat, attempt as nat);
    assert(out@ =~= dir_part + staged);
    assert(path_join(parent_of(path@), staged) == chars@.subrange(0, keep as int) + staged);
    Ok(string_from_chars(out.as_slice()))
}

/// How many staging names a replacing save tries before it gives up.
pub const STAGING_ATTEMPTS: u32 = 16;

/// What happened since the last step of a save: the first step, or the
/// outcome of the action that the last step asked for.
#[derive(Debug, Clone, Copy, PartialEq, Eq, Structural)]
pub enum SaveEvent {
    /// The save starts.
    Begin,
    /// The file was created.
    Opened,
    /// The file to create exists already.
    AlreadyExists,
    /// The file could not be created for another reason.
    OpenFailed,
    /// The subtitle was written.
    Written,
    /// Writing the subtitle failed.
    WriteFailed,
    /// The staged file now stands at the subtitle path.
    Renamed,
    /// Renaming the staged file failed.
    RenameFailed,
}

/// Why a save failed.
#[derive(Debug, Clone, Copy, PartialEq, Eq, Structural)]
pub enum SaveFailure {
    /// The subtitle file could not be created (it may exist already).
    Create,
    /// No staging file could be created.
    Stage,
    /// Every staging name was taken.
    NoUnusedName,
    /// Writing the subtitle failed.
    Write,
    /// The staged file could not be renamed over the subtitle path.
    Replace,
}

/// What to do next in a save.
#[derive(Debug, Clone, PartialEq, Eq)]
pub enum SaveAction {
    /// Create this file, failing if it exists.
    CreateNew(String),
    /// Write the subtitle into the file just created (named here).
    Write(String),
    /// Rename the first file over the second.
    Rename(String, String),
    /// Remove this file, then fail for the reason given.
    RemoveThenFail(String, SaveFailure),
    /// Fail for the reason given.
    Fail(SaveFailure),
    /// The subtitle is saved.
    Done,
}

/// Where a save stands: whether it may replace an existing file, how many
/// staging names it has tried, and the staging file it last asked for.
#[derive(Debug, Clone, PartialEq, Eq)]
pub struct SaveState {
    pub force: bool,
    pub attempt: u32,
    pub staged: Option<String>,
}

impl SaveState {
    /// The state before the first step.
    pub fn new(force: bool) -> (res: SaveState)
        ensures
            res.force == force,
            res.attempt == 0,
            res.staged is None,
    {
        SaveState { force, attempt: 0, staged: None }
    }
}

/// The staging path of a given attempt.
pub open spec fn staged_path_for(path: Seq<char>, process: u32, time: u128, attempt: u32) -> Seq<
    char,
> {
    sibling_path(path, staging_name(file_name_of(path), process as nat, time as nat, attempt as nat))
}

/// The file that the save has just created: the subtitle path itself, or,
/// when replacing, the staging file.
pub open spec fn created_file(path: Seq<char>, state: SaveState) -> Option<Seq<char>> {
    if state.force {
        opt_view(state.staged)
    } else {
        Some(path)
    }
}

/// The action creates the file `f`.
pub open spec fn creates(action: SaveAction, f: Seq<char>) -> bool {
    action matches SaveAction::CreateNew(p) && p@ == f
}

/// The action writes the subtitle into the file `f`.
pub open spec fn writes(action: SaveAction, f: Seq<char>) -> bool {
    action matches SaveAction::Write(p) && p@ == f
}

/// The action renames `from` over `to`.
pub open spec fn renames(action: SaveAction, from: Seq<char>, to: Seq<char>) -> bool {
    action matches SaveAction::Rename(a, b) && a@ == from && b@ == to
}

/// The action removes the file `f`, then fails for `why`.
pub open spec fn removes_then_fails(action: SaveAction, f: Seq<char>, why: SaveFailure) -> bool {
    action matches SaveAction::RemoveThenFail(p, w) && p@ == f && w == why
}

/// One step of saving a subtitle at `path`: from where the save stands and
/// what just happened, the next state and action. Without `force` the file
/// is created where it must not exist yet, and written. With `force` the
/// subtitle is written to a fresh staging file next to `path` (moving on to
/// the next staging name while one is taken, for at most
/// `STAGING_ATTEMPTS` names) and renamed over `path`; a file that the save
/// created is removed when a later step fails.
pub fn save_step(path: &str, process: u32, time: u128, state: SaveState, event: SaveEvent) -> (res:
    Result<(SaveState, SaveAction), SubdlError>)
    ensures
        res is Err ==> state.force && (event == SaveEvent::Begin || event
            == SaveEvent::AlreadyExists) && state.attempt < STAGING_ATTEMPTS && !has_file_name(
            path@,
        ) && res == Err::<(SaveState, SaveAction), SubdlError>(SubdlError::NoFileName),
        res matches Ok((next, _)) ==> next.force == state.force,
        res matches Ok((_, SaveAction::Rename(_, _))) ==> state.force,
        match res {
            Ok((next, action)) => match event {
                SaveEvent::Begin | SaveEvent::AlreadyExists => if !state.force {
                    if event == SaveEvent::Begin {
                        next == state && creates(action, path@)
                    } else {
                        next == state && action == SaveAction::Fail(SaveFailure::Create)
                    }
                } else if state.attempt < STAGING_ATTEMPTS {
                    has_file_name(path@) && next.attempt == state.attempt + 1
                        && opt_view(next.staged) == Some(
                        staged_path_for(path@, process, time, state.attempt),
                    ) && creates(action, staged_path_for(path@, process, time, state.attempt))
                } else {
                    next == state && action == SaveAction::Fail(SaveFailure::NoUnusedName)
                },
                SaveEvent::OpenFailed => next == state && action == SaveAction::Fail(
                    if state.force {
                        SaveFailure::Stage
                    } else {
                        SaveFailure::Create
                    },
                ),
                SaveEvent::Opened => next == state && match created_file(path@, state) {
                    Some(f) => writes(action, f),
                    None => action == SaveAction::Fail(SaveFailure::Stage),
                },
                SaveEvent::Written => next == state && if !state.force {
                    action == SaveAction::Done
                } else {
                    match created_file(path@, state) {
                        Some(f) => renames(action, f, path@),
                        None => action == SaveAction::Fail(SaveFailure::Stage),
                    }
                },
                SaveEvent::WriteFailed => next == state && match created_file(path@, state) {
                    Some(f) => removes_then_fails(action, f, SaveFailure::Write),
                    None => action == SaveAction::Fail(SaveFailure::Write),
                },
                SaveEvent::Renamed => next == state && action == SaveAction::Done,
                SaveEvent::RenameFailed => next == state && if !state.force {
                    action == SaveAction::Fail(SaveFailure::Replace)
                } else {
                    match created_file(path@, state) {
                        Some(f) => removes_then_fails(action, f, SaveFailure::Replace),
                        None => action == SaveAction::Fail(SaveFailure::Replace),
                    }
                },
            },
            Err(_) => true,
        },
{
    match event {
        SaveEvent::Begin | SaveEvent::AlreadyExists => {
            if !state.force {
                if event == SaveEvent::Begin {
                    let target = String::from_str(path);
                    Ok((state, SaveAction::CreateNew(target)))
                } else {
                    Ok((state, SaveAction::Fail(SaveFailure::Create)))
                }
            } else if state.attempt < STAGING_ATTEMPTS {
                let staged = staging_path(path, process, time, state.attempt)?;
                let action = SaveAction::CreateNew(staged.clone());
                let next = SaveState {
                    force: state.force,
                    attempt: state.attempt + 1,
                    staged: Some(staged),
                };
                Ok((next, action))
            } else {
                Ok((state, SaveAction::Fail(SaveFailure::NoUnusedName)))
            }
        },
        SaveEvent::OpenFailed => {
            let why = if state.force {
                SaveFailure::Stage
            } else {
                SaveFailure::Create
            };
            Ok((state, SaveAction::Fail(why)))
        },
        SaveEvent::Opened => {
            let action = if !state.force {
                SaveAction::Write(String::from_str(path))
            } else {
                match &state.staged {
                    Some(f) => SaveAction::Write(f.clone()),
                    None => SaveAction::Fail(SaveFailure::Stage),
                }
            };
            Ok((state, action))
        },
        SaveEvent::Written => {
            let action = if !state.force {
                SaveAction::Done
            } else {
                match &state.staged {
                    Some(f) => SaveAction::Rename(f.clone(), String::from_str(path)),
                    None => SaveAction::Fail(SaveFailure::Stage),
                }
            };
            Ok((state, action))
        },
        SaveEvent::WriteFailed => {
            let action = if !state.force {
                SaveAction::RemoveThenFail(String::from_str(path), SaveFailure::Write)
            } else {
                match &state.staged {
                    Some(f) => SaveAction::RemoveThenFail(f.clone(), SaveFailure::Write),
                    None => SaveAction::Fail(SaveFailure::Write),
                }
            };
            Ok((state, action))
        },
        SaveEvent::Renamed => Ok((state, SaveAction::Done)),
        SaveEvent::RenameFailed => {
            let action = if !state.force {
                SaveAction::Fail(SaveFailure::Replace)
            } else {
                match &state.staged {
                    Some(f) => SaveAction::RemoveThenFail(f.clone(), SaveFailure::Replace),
                    None => SaveAction::Fail(SaveFailure::Replace),
                }
            };
            Ok((state, action))
        },
    }
}

} // verus!
