# teamy-subs

Download, extract and convert subtitles. A Verus-verified library holds the
logic: WebVTT reading and conversion, extraction planning and its failure
report, the steps of saving a subtitle, SubDL requests and leases, and the
choice of a file from a subtitle archive. A thin program around it does the
file, process and network work, and ranks SubDL candidates by their
floating-point match score. The cached SubDL login (lease storage) uses the
Windows credential API; in this build its storage reports that it needs
Windows, so login caching, status, logout and lease reuse are unavailable.

## Layout

- `src/` — the verified library (`teamy_subs`):
  - `text`: the character-level string model (whitespace, search, decimal
    numbers, text order and sorting).
  - `timestamp`: WebVTT timestamps (`HH:MM:SS.mmm` / `MM:SS.mmm`).
  - `payload`: cue payload fragments and their plain text.
  - `document`: WebVTT/TXT document shapes and the deduplicated text
    projection of cue texts.
  - `fallback`: the line-based WebVTT-to-text reader.
  - `webvtt`: conversion through the `vtt` crate, with the fallback.
  - `conversion`: the `convert` command's output path and conversion kind.
  - `extract`: ffprobe listings, output names, ffmpeg/ffprobe arguments and
    the report of failed streams.
  - `ytdlp`: the `yt-dlp` arguments.
  - `lease`: SubDL login leases: validity, names, selection, status and the
    cleanup task definition.
  - `subdl`: SubDL requests, download paths, summaries, output names and
    the steps of saving a subtitle (create, or stage and rename).
  - `archive`: choosing the subtitle file of a downloaded ZIP (`zip` crate).
  - `clock`: RFC 3339 times through `chrono`.
- `tests/` — tests of the library.
- `app/` — the command-line program (figue, tokio, reqwest, file system).

The library reads paths with `/` as the only separator, as `std::path`
does on Unix; on Windows the program turns `\` into `/` before handing a
path to it.
