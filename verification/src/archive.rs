//! Picking the subtitle file out of a downloaded SubDL ZIP archive.
//!
//! An archive is read through the `zip` crate. Each entry is seen as what
//! the crate reports for it: its name, whether it is a directory and its
//! uncompressed size (or nothing, where the crate cannot open the entry),
//! together with its contents (or nothing, where they cannot be read).
use crate::conversion::{lowercase_extension, path_extension_lower, vtt_word};
use crate::text::{slices_equal, str_chars};
use std::io::Cursor;
use std::io::Read;
use vstd::prelude::*;
use zip::ZipArchive;

verus! {

#[verifier::external_type_specification]
#[verifier::external_body]
#[verifier::reject_recursive_types(T)]
pub struct ExCursor<T>(Cursor<T>);

#[verifier::external_type_specification]
#[verifier::external_body]
#[verifier::reject_recursive_types(R)]
pub struct ExZipArchive<R>(ZipArchive<R>);

/// The entries of an open archive, in index order: for each, what
/// `by_index` and `name` report (`None` where either fails), and what
/// reading the entry to its end gives (`None` where that fails).
pub uninterp spec fn zip_contents(archive: ZipArchive<Cursor<&[u8]>>) -> Seq<
    (Option<(Seq<char>, bool, u64)>, Option<Seq<u8>>),
>;

/// The entries that `ZipArchive::new` finds in the bytes, or `None` where
/// it rejects them.
pub uninterp spec fn zip_open(bytes: Seq<u8>) -> Option<
    Seq<(Option<(Seq<char>, bool, u64)>, Option<Seq<u8>>)>,
>;

/// `zip::ZipArchive::new` over a cursor on the bytes. Claims: the result
/// is `Some` exactly where `zip_open` has a value, and the archive then
/// holds those entries.
#[verifier::external_body]
fn open_zip<'a>(bytes: &'a [u8]) -> (res: Option<ZipArchive<Cursor<&'a [u8]>>>)
    ensures
        match res {
            Some(archive) => zip_open(bytes@) == Some(zip_contents(archive)),
            None => zip_open(bytes@) is None,
        },
{
    ZipArchive::new(Cursor::new(bytes)).ok()
}

/// `zip::ZipArchive::len`: the number of entries.
#[verifier::external_body]
fn zip_len(archive: &ZipArchive<Cursor<&[u8]>>) -> (res: usize)
    ensures
        res == zip_contents(*archive).len(),
{
    archive.len()
}

/// `zip::ZipArchive::by_index`, then the entry's `name`, `is_dir` and
/// `size`. Claims: these are what the archive holds for the entry, and the
/// call leaves the entries as they were. The entry (`zip::read::ZipFile`)
/// cannot be handed out: its type is bounded by `std::io::Read`, which
/// Verus does not accept in a type declaration, so each use of `by_index`
/// reads what it needs inside one trusted item.
#[verifier::external_body]
fn zip_entry_info(archive: &mut ZipArchive<Cursor<&[u8]>>, index: usize) -> (res: Option<
    (String, bool, u64),
>)
    requires
        index < zip_contents(*old(archive)).len(),
    ensures
        zip_contents(*final(archive)) == zip_contents(*old(archive)),
        match res {
            Some(info) => zip_contents(*old(archive))[index as int].0 == Some(
                (info.0@, info.1, info.2),
            ),
            None => zip_contents(*old(archive))[index as int].0 is None,
        },
{
    match archive.by_index(index) {
        Ok(entry) => match entry.name() {
            Ok(name) => Some((name.into_owned(), entry.is_dir(), entry.size())),
            Err(_) => None,
        },
        Err(_) => None,
    }
}

/// `zip::ZipArchive::by_index`, then `Read::read_to_end` on the entry.
/// Claims: the bytes are what the archive holds for the entry, and the call
/// leaves the entries as they were.
#[verifier::external_body]
fn zip_entry_read(archive: &mut ZipArchive<Cursor<&[u8]>>, index: usize) -> (res: Option<Vec<u8>>)
    requires
        index < zip_contents(*old(archive)).len(),
    ensures
        zip_contents(*final(archive)) == zip_contents(*old(archive)),
        match res {
            Some(data) => zip_contents(*old(archive))[index as int].1 == Some(data@),
            None => zip_contents(*old(archive))[index as int].1 is None,
        },
{
    let mut data = Vec::new();
    match archive.by_index(index) {
        Ok(mut entry) => match entry.read_to_end(&mut data) {
            Ok(_) => Some(data),
            Err(_) => None,
        },
        Err(_) => None,
    }
}

/// Why no subtitle could be taken from an archive.
#[derive(Debug, Clone, Copy, PartialEq, Eq, Structural)]
pub enum ArchiveError {
    /// The download is not a readable ZIP archive.
    Unreadable,
    /// An entry of the archive cannot be opened.
    InvalidEntry,
    /// Several files share the most preferred subtitle format.
    Ambiguous,
    /// No entry is a subtitle file of a supported format.
    NoSubtitle,
    /// The chosen entry cannot be read.
    ExtractFailed,
    /// The chosen entry's contents are empty or too large.
    InvalidSize,
}

/// The largest subtitle file taken from an archive: 10 MiB.
pub open spec fn max_subtitle_bytes() -> nat {
    10 * 1024 * 1024
}

pub open spec fn srt_word() -> Seq<char> {
    seq!['s', 'r', 't']
}

pub open spec fn ass_word() -> Seq<char> {
    seq!['a', 's', 's']
}

/// The preference of a subtitle format, by lowercased file extension:
/// SubRip first, then ASS, then WebVTT; other files are not subtitles.
pub open spec fn format_rank(name: Seq<char>) -> Option<int> {
    match path_extension_lower(name) {
        Some(ext) => if ext == srt_word() {
            Some(0)
        } else if ext == ass_word() {
            Some(1)
        } else if ext == vtt_word() {
            Some(2)
        } else {
            None
        },
        None => None,
    }
}

/// The extension of the format of a rank.
pub open spec fn rank_extension(rank: int) -> Seq<char> {
    if rank == 0 {
        srt_word()
    } else if rank == 1 {
        ass_word()
    } else {
        vtt_word()
    }
}

/// The rank of an entry (name, is a directory, size): only non-empty
/// files of at most `max_subtitle_bytes` in a supported format have one.
pub open spec fn entry_rank(entry: (Seq<char>, bool, u64)) -> Option<int> {
    if entry.1 || entry.2 == 0 || entry.2 > max_subtitle_bytes() {
        None
    } else {
        format_rank(entry.0)
    }
}

/// The best (lowest) rank among the entries.
pub open spec fn best_rank(entries: Seq<(Seq<char>, bool, u64)>) -> Option<int>
    decreases entries.len(),
{
    if entries.len() == 0 {
        None
    } else {
        let before = best_rank(entries.drop_last());
        match entry_rank(entries.last()) {
            Some(r) => match before {
                Some(b) => Some(if r < b { r } else { b }),
                None => Some(r),
            },
            None => before,
        }
    }
}

/// Entry `i` has the best rank.
pub open spec fn preferred(entries: Seq<(Seq<char>, bool, u64)>, i: int) -> bool {
    &&& 0 <= i < entries.len()
    &&& entry_rank(entries[i]) is Some
    &&& entry_rank(entries[i]) == best_rank(entries)
}

/// Two entries share the best rank.
pub open spec fn ambiguous(entries: Seq<(Seq<char>, bool, u64)>) -> bool {
    exists|i: int, j: int| i < j && #[trigger] preferred(entries, i) && #[trigger] preferred(entries, j)
}

pub proof fn lemma_best_rank(entries: Seq<(Seq<char>, bool, u64)>)
    ensures
        match best_rank(entries) {
            Some(b) => (exists|i: int| 0 <= i < entries.len() && entry_rank(#[trigger] entries[i]) == Some(b))
                && forall|i: int| 0 <= i < entries.len() && entry_rank(#[trigger] entries[i]) is Some
                    ==> b <= entry_rank(entries[i]).unwrap(),
            None => forall|i: int| 0 <= i < entries.len() ==> entry_rank(#[trigger] entries[i]) is None,
        },
    decreases entries.len(),
{
    if entries.len() > 0 {
        let before = entries.drop_last();
        lemma_best_rank(before);
        assert forall|i: int| 0 <= i < before.len() implies before[i] == entries[i] by {}
        let last = entries.len() - 1;
        assert(entries.last() == entries[last]);
        match best_rank(before) {
            Some(b) => {
                let w = choose|i: int| 0 <= i < before.len() && entry_rank(#[trigger] before[i]) == Some(b);
                assert(entry_rank(entries[w]) == Some(b));
            },
            None => {},
        }
    }
}

/// The plain view of a listed entry.
pub open spec fn entry_view(entry: (String, bool, u64)) -> (Seq<char>, bool, u64) {
    (entry.0@, entry.1, entry.2)
}

pub open spec fn entries_view(entries: Seq<(String, bool, u64)>) -> Seq<(Seq<char>, bool, u64)> {
    entries.map_values(|e: (String, bool, u64)| entry_view(e))
}

fn entry_rank_of(entry: &(String, bool, u64)) -> (res: Option<u8>)
    ensures
        match res {
            Some(r) => entry_rank(entry_view(*entry)) == Some(r as int) && r <= 2,
            None => entry_rank(entry_view(*entry)) is None,
        },
{
    if entry.1 || entry.2 == 0 || entry.2 > 10 * 1024 * 1024 {
        return None;
    }
    match lowercase_extension(entry.0.as_str()) {
        Ok(ext) => {
            let e = str_chars(ext.as_str());
            let srt = ['s', 'r', 't'];
            let ass = ['a', 's', 's'];
            let vtt = ['v', 't', 't'];
            assert(srt@ =~= srt_word());
            assert(ass@ =~= ass_word());
            assert(vtt@ =~= vtt_word());
            if slices_equal(e.as_slice(), &srt) {
                Some(0)
            } else if slices_equal(e.as_slice(), &ass) {
                Some(1)
            } else if slices_equal(e.as_slice(), &vtt) {
                Some(2)
            } else {
                None
            }
        },
        Err(_) => None,
    }
}

/// Picks the subtitle entry of a listing (name, is a directory, size): the
/// single entry of the most preferred format present, with that format's
/// extension. Refused where two entries share that format, or where no
/// entry is a supported subtitle file.
pub fn preferred_subtitle(entries: &[(String, bool, u64)]) -> (res: Result<
    (usize, &'static str),
    ArchiveError,
>)
    ensures
        ambiguous(entries_view(entries@)) ==> res == Err::<(usize, &'static str), ArchiveError>(
            ArchiveError::Ambiguous,
        ),
        !ambiguous(entries_view(entries@)) && best_rank(entries_view(entries@)) is None ==> res
            == Err::<(usize, &'static str), ArchiveError>(ArchiveError::NoSubtitle),
        !ambiguous(entries_view(entries@)) && best_rank(entries_view(entries@)) is Some ==> (
        res matches Ok((i, ext)) && preferred(entries_view(entries@), i as int) && ext@
            == rank_extension(best_rank(entries_view(entries@)).unwrap())),
{
    let ghost es = entries_view(entries@);
    let mut best: Option<(usize, u8)> = None;
    let mut twice = false;
    let mut k: usize = 0;
    while k < entries.len()
        invariant
            k <= entries@.len(),
            es == entries_view(entries@),
            es.len() == entries@.len(),
            match best {
                None => best_rank(es.subrange(0, k as int)) is None,
                Some((i, r)) => i < k && best_rank(es.subrange(0, k as int)) == Some(r as int)
                    && entry_rank(es[i as int]) == Some(r as int),
            },
            twice == ambiguous(es.subrange(0, k as int)),
        decreases entries@.len() - k,
    {
        let ghost pre = es.subrange(0, k as int);
        let ghost next = es.subrange(0, k + 1);
        assert(next.drop_last() =~= pre);
        assert(next.last() == es[k as int]);
        assert(es[k as int] == entry_view(entries@[k as int]));
        assert forall|j: int| 0 <= j < k implies next[j] == pre[j] && pre[j] == es[j] by {}
        proof {
            lemma_best_rank(pre);
        }
        let rank = entry_rank_of(&entries[k]);
        match rank {
            None => {
                assert forall|j: int| #[trigger] preferred(next, j) implies j < k && preferred(pre, j) by {}
                assert forall|j: int| 0 <= j < k && #[trigger] preferred(pre, j) implies preferred(next, j) by {}
                proof {
                    if twice {
                        let (a, b) = choose|a: int, b: int| a < b && #[trigger] preferred(pre, a) && #[trigger] preferred(pre, b);
                        assert(preferred(next, a) && preferred(next, b));
                    }
                }
            },
            Some(r) => {
                match best {
                    None => {
                        assert forall|j: int| #[trigger] preferred(next, j) implies j == k by {
                            if j < k {
                                assert(entry_rank(pre[j]) is None);
                            }
                        }
                        best = Some((k, r));
                        twice = false;
                    },
                    Some((i, b)) => {
                        if r < b {
                            assert forall|j: int| #[trigger] preferred(next, j) implies j == k by {
                                if j < k {
                                    assert(entry_rank(pre[j]) is Some ==> b <= entry_rank(pre[j]).unwrap());
                                }
                            }
                            best = Some((k, r));
                            twice = false;
                        } else if r == b {
                            assert(preferred(next, i as int));
                            assert(preferred(next, k as int));
                            twice = true;
                        } else {
                            assert forall|j: int| #[trigger] preferred(next, j) implies j < k && preferred(pre, j) by {}
                            assert forall|j: int| 0 <= j < k && #[trigger] preferred(pre, j) implies preferred(next, j) by {}
                            proof {
                                if twice {
                                    let (a, c) = choose|a: int, c: int| a < c && #[trigger] preferred(pre, a) && #[trigger] preferred(pre, c);
                                    assert(preferred(next, a) && preferred(next, c));
                                }
                            }
                        }
                    },
                }
            },
        }
        k += 1;
    }
    assert(es.subrange(0, entries@.len() as int) =~= es);
    if twice {
        return Err(ArchiveError::Ambiguous);
    }
    match best {
        None => Err(ArchiveError::NoSubtitle),
        Some((i, r)) => {
            proof {
                reveal_strlit("srt");
                reveal_strlit("ass");
                reveal_strlit("vtt");
            }
            let ext = if r == 0 {
                "srt"
            } else if r == 1 {
                "ass"
            } else {
                "vtt"
            };
            assert(ext@ =~= rank_extension(r as int));
            Ok((i, ext))
        },
    }
}

/// The subtitle taken from an archive's entries: the preferred entry's
/// format extension and contents, where every entry can be opened, exactly
/// one entry has the most preferred format, and its contents can be read
/// and are non-empty and at most `max_subtitle_bytes` long.
pub open spec fn spec_extract_subtitle(
    contents: Seq<(Option<(Seq<char>, bool, u64)>, Option<Seq<u8>>)>,
) -> Result<(Seq<char>, Seq<u8>), ArchiveError> {
    if exists|i: int| 0 <= i < contents.len() && (#[trigger] contents[i]).0 is None {
        Err(ArchiveError::InvalidEntry)
    } else {
        let entries = contents.map_values(
            |e: (Option<(Seq<char>, bool, u64)>, Option<Seq<u8>>)| e.0.unwrap(),
        );
        if ambiguous(entries) {
            Err(ArchiveError::Ambiguous)
        } else {
            match best_rank(entries) {
                None => Err(ArchiveError::NoSubtitle),
                Some(b) => {
                    let i = choose|i: int| preferred(entries, i);
                    match contents[i].1 {
                        None => Err(ArchiveError::ExtractFailed),
                        Some(data) => if data.len() == 0 || data.len() > max_subtitle_bytes() {
                            Err(ArchiveError::InvalidSize)
                        } else {
                            Ok((rank_extension(b), data))
                        },
                    }
                },
            }
        }
    }
}

/// Takes the subtitle file out of a downloaded ZIP archive: its format's
/// extension and its contents.
pub fn extract_subtitle(archive_bytes: &[u8]) -> (res: Result<(&'static str, Vec<u8>), ArchiveError>)
    ensures
        match zip_open(archive_bytes@) {
            None => res == Err::<(&'static str, Vec<u8>), ArchiveError>(ArchiveError::Unreadable),
            Some(contents) => match res {
                Ok((ext, data)) => spec_extract_subtitle(contents) == Ok::<
                    (Seq<char>, Seq<u8>),
                    ArchiveError,
                >((ext@, data@)),
                Err(e) => spec_extract_subtitle(contents) == Err::<(Seq<char>, Seq<u8>), ArchiveError>(
                    e,
                ),
            },
        },
{
    let mut archive = match open_zip(archive_bytes) {
        Some(a) => a,
        None => return Err(ArchiveError::Unreadable),
    };
    let ghost contents = zip_contents(archive);
    let n = zip_len(&archive);
    let mut listing: Vec<(String, bool, u64)> = Vec::new();
    let mut index: usize = 0;
    while index < n
        invariant
            index <= n,
            n == contents.len(),
            zip_contents(archive) == contents,
            zip_open(archive_bytes@) == Some(contents),
            listing@.len() == index,
            forall|j: int| 0 <= j < index ==> contents[j].0 == Some(entry_view(#[trigger] listing@[j])),
        decreases n - index,
    {
        match zip_entry_info(&mut archive, index) {
            Some(info) => listing.push(info),
            None => {
                assert(contents[index as int].0 is None);
                return Err(ArchiveError::InvalidEntry);
            },
        }
        index += 1;
    }
    let ghost entries = contents.map_values(
        |e: (Option<(Seq<char>, bool, u64)>, Option<Seq<u8>>)| e.0.unwrap(),
    );
    assert(entries_view(listing@) =~= entries);
    assert forall|i: int| 0 <= i < contents.len() implies (#[trigger] contents[i]).0 is Some by {
        assert(contents[i].0 == Some(entry_view(listing@[i])));
    }
    let (chosen, ext) = match preferred_subtitle(listing.as_slice()) {
        Ok(choice) => choice,
        Err(e) => return Err(e),
    };
    proof {
        let c = choose|i: int| preferred(entries, i);
        assert(preferred(entries, chosen as int));
        if c != chosen as int {
            if c < chosen {
                assert(preferred(entries, c) && preferred(entries, chosen as int));
            } else {
                assert(preferred(entries, chosen as int) && preferred(entries, c));
            }
        }
    }
    let data = match zip_entry_read(&mut archive, chosen) {
        Some(d) => d,
        None => return Err(ArchiveError::ExtractFailed),
    };
    if data.len() == 0 || data.len() > 10 * 1024 * 1024 {
        return Err(ArchiveError::InvalidSize);
    }
    Ok((ext, data))
}

} // verus!
