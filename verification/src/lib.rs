//! Subtitle handling for teamy-subs: WebVTT timestamps and cue payloads,
//! readable text projection, a tolerant WebVTT-to-text converter, ffprobe
//! stream listings and ffmpeg/yt-dlp command lines, SubDL login leases,
//! requests and archives, and the command decisions around them.
pub mod text;
pub mod timestamp;
pub mod payload;
pub mod document;
pub mod fallback;
pub mod webvtt;
pub mod conversion;
pub mod extract;
pub mod lease;
pub mod subdl;
pub mod archive;
pub mod ytdlp;
pub mod clock;
