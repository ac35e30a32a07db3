//! The `yt-dlp` command line that downloads the subtitles of remote media.
use crate::text::strings_view;
use vstd::prelude::*;

verus! {

/// Download subtitles for remote media with `yt-dlp`.
#[derive(Debug, Clone, PartialEq, Eq)]
pub struct YtDlpDownloadArgs {
    /// Media URL to inspect with `yt-dlp`.
    pub url: String,
    /// Directory where subtitle files should be written.
    pub output_dir: Option<String>,
    /// Language selector passed through to `yt-dlp --sub-langs`.
    pub sub_langs: Option<String>,
    /// Skip auto-generated subtitles.
    pub no_auto_subs: bool,
}

/// Download subtitles for remote media with `yt-dlp` (the top-level
/// `download` command).
#[derive(Debug, Clone, PartialEq, Eq)]
pub struct DownloadArgs {
    /// Media URL to inspect with `yt-dlp`.
    pub url: String,
    /// Directory where subtitle files should be written.
    pub output_dir: Option<String>,
    /// Language selector passed through to `yt-dlp --sub-langs`.
    pub sub_langs: Option<String>,
    /// Skip auto-generated subtitles.
    pub no_auto_subs: bool,
}

/// The language selector: as given, or `all`.
pub open spec fn spec_sub_langs(sub_langs: Option<Seq<char>>) -> Seq<char> {
    match sub_langs {
        Some(l) => l,
        None => "all"@,
    }
}

/// The arguments given to `yt-dlp`: subtitles only, in the selected
/// languages, as WebVTT, written under `output_dir`, with the automatic
/// subtitles unless they are skipped, for `url`.
pub open spec fn spec_yt_dlp_arguments(
    sub_langs: Seq<char>,
    output_dir: Seq<char>,
    no_auto_subs: bool,
    url: Seq<char>,
) -> Seq<Seq<char>> {
    let common = seq![
        "--skip-download"@,
        "--write-subs"@,
        "--sub-langs"@,
        sub_langs,
        "--sub-format"@,
        "vtt"@,
        "--convert-subs"@,
        "vtt"@,
        "--paths"@,
        "home:"@ + output_dir,
    ];
    if no_auto_subs {
        common.push(url)
    } else {
        common.push("--write-auto-subs"@).push(url)
    }
}

/// The automatic subtitles are asked for exactly when they are not skipped,
/// whatever the language selector, directory and URL: without
/// `--no-auto-subs` the arguments are those given with it plus
/// `--write-auto-subs` just before the URL; with it, the URL directly
/// follows the `--paths` argument, and no argument is `--write-auto-subs`
/// unless the selector or the URL itself is that text.
pub proof fn lemma_auto_subs_follow_the_flag(
    sub_langs: Seq<char>,
    output_dir: Seq<char>,
    url: Seq<char>,
)
    ensures
        spec_yt_dlp_arguments(sub_langs, output_dir, false, url) == spec_yt_dlp_arguments(
            sub_langs,
            output_dir,
            true,
            url,
        ).insert(10, "--write-auto-subs"@),
        spec_yt_dlp_arguments(sub_langs, output_dir, false, url).contains("--write-auto-subs"@),
        sub_langs != "--write-auto-subs"@ && url != "--write-auto-subs"@ ==> !spec_yt_dlp_arguments(
            sub_langs,
            output_dir,
            true,
            url,
        ).contains("--write-auto-subs"@),
{
    let with = spec_yt_dlp_arguments(sub_langs, output_dir, false, url);
    let without = spec_yt_dlp_arguments(sub_langs, output_dir, true, url);
    assert(with =~= without.insert(10, "--write-auto-subs"@));
    assert(with[10] == "--write-auto-subs"@);
    let w = "--write-auto-subs"@;
    if sub_langs != w && url != w {
        reveal_strlit("--write-auto-subs");
        reveal_strlit("--skip-download");
        reveal_strlit("--write-subs");
        reveal_strlit("--sub-langs");
        reveal_strlit("--sub-format");
        reveal_strlit("vtt");
        reveal_strlit("--convert-subs");
        reveal_strlit("--paths");
        reveal_strlit("home:");
        assert("--skip-download"@ != w) by {
            assert("--skip-download"@.len() != w.len());
        }
        assert("--write-subs"@ != w) by {
            assert("--write-subs"@.len() != w.len());
        }
        assert("--sub-langs"@ != w) by {
            assert("--sub-langs"@.len() != w.len());
        }
        assert("--sub-format"@ != w) by {
            assert("--sub-format"@.len() != w.len());
        }
        assert("vtt"@ != w) by {
            assert("vtt"@.len() != w.len());
        }
        assert("--convert-subs"@ != w) by {
            assert("--convert-subs"@.len() != w.len());
        }
        assert("--paths"@ != w) by {
            assert("--paths"@.len() != w.len());
        }
        assert("home:"@ + output_dir != w) by {
            assert(("home:"@ + output_dir)[0] == 'h');
            assert(w[0] == '-');
        }
        assert forall|q: int| 0 <= q < without.len() implies without[q] != w by {}
    }
}

/// The `yt-dlp` arguments for these choices.
pub fn yt_dlp_arguments(sub_langs: Option<&str>, output_dir: &str, no_auto_subs: bool, url: &str) -> (res: Vec<String>)
    ensures
        strings_view(res@) == spec_yt_dlp_arguments(
            spec_sub_langs(
                match sub_langs {
                    Some(l) => Some(l@),
                    None => None,
                },
            ),
            output_dir@,
            no_auto_subs,
            url@,
        ),
{
    let langs = match sub_langs {
        Some(l) => String::from_str(l),
        None => String::from_str("all"),
    };
    let mut paths = String::from_str("home:");
    paths.append(output_dir);
    let mut args: Vec<String> = Vec::new();
    args.push(String::from_str("--skip-download"));
    args.push(String::from_str("--write-subs"));
    args.push(String::from_str("--sub-langs"));
    args.push(langs);
    args.push(String::from_str("--sub-format"));
    args.push(String::from_str("vtt"));
    args.push(String::from_str("--convert-subs"));
    args.push(String::from_str("vtt"));
    args.push(String::from_str("--paths"));
    args.push(paths);
    if !no_auto_subs {
        args.push(String::from_str("--write-auto-subs"));
    }
    args.push(String::from_str(url));
    assert(strings_view(args@) =~= spec_yt_dlp_arguments(
        spec_sub_langs(
            match sub_langs {
                Some(l) => Some(l@),
                None => None,
            },
        ),
        output_dir@,
        no_auto_subs,
        url@,
    ));
    args
}

impl YtDlpDownloadArgs {
    /// The `yt-dlp` arguments that write this media's subtitles into
    /// `output_dir` (the chosen directory, or the current one).
    pub fn arguments(&self, output_dir: &str) -> (res: Vec<String>)
        ensures
            strings_view(res@) == spec_yt_dlp_arguments(
                spec_sub_langs(
                    match self.sub_langs {
                        Some(l) => Some(l@),
                        None => None,
                    },
                ),
                output_dir@,
                self.no_auto_subs,
                self.url@,
            ),
    {
        let langs = match &self.sub_langs {
            Some(l) => Some(l.as_str()),
            None => None,
        };
        yt_dlp_arguments(langs, output_dir, self.no_auto_subs, self.url.as_str())
    }
}

impl DownloadArgs {
    /// The `yt-dlp` arguments that write this media's subtitles into
    /// `output_dir` (the chosen directory, or the current one).
    pub fn arguments(&self, output_dir: &str) -> (res: Vec<String>)
        ensures
            strings_view(res@) == spec_yt_dlp_arguments(
                spec_sub_langs(
                    match self.sub_langs {
                        Some(l) => Some(l@),
                        None => None,
                    },
                ),
                output_dir@,
                self.no_auto_subs,
                self.url@,
            ),
    {
        let langs = match &self.sub_langs {
            Some(l) => Some(l.as_str()),
            None => None,
        };
        yt_dlp_arguments(langs, output_dir, self.no_auto_subs, self.url.as_str())
    }
}

} // verus!
