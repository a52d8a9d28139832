//! The backend options the settings panel knows how to present. Anything
//! not listed here still survives a round trip through the panel.
use vstd::prelude::*;

use crate::text;

verus! {

/// One entry of a choice: what the user reads, and what the backend gets.
#[derive(Debug, Clone, Copy, PartialEq, Eq)]
pub struct Preset {
    pub label: &'static str,
    pub value: &'static str,
}

/// How an option is set.
#[derive(Debug, Clone, PartialEq)]
pub enum Kind {
    /// On or off.
    Flag,
    /// Carries text after `=`.
    Value,
    /// A short list of named settings for a flag whose real value nobody
    /// wants to type. Space cycles through them; `x` clears the flag.
    Choice(Vec<Preset>),
}

/// A backend option the panel knows how to present.
#[derive(Debug, Clone, PartialEq)]
pub struct OptSpec {
    pub flag: &'static str,
    pub label: &'static str,
    pub kind: Kind,
    pub hint: &'static str,
}

/// How an option is set, with its presets as text.
pub enum KindView {
    Flag,
    Value,
    Choice(Seq<(Seq<char>, Seq<char>)>),
}

/// An option with its texts as character sequences.
pub struct OptSpecView {
    pub flag: Seq<char>,
    pub label: Seq<char>,
    pub kind: KindView,
    pub hint: Seq<char>,
}

/// The presets as (label, value).
pub open spec fn preset_views(v: Seq<Preset>) -> Seq<(Seq<char>, Seq<char>)> {
    v.map_values(|p: Preset| (p.label@, p.value@))
}

/// An option as text.
pub open spec fn opt_view(o: OptSpec) -> OptSpecView {
    OptSpecView {
        flag: o.flag@,
        label: o.label@,
        kind: match o.kind {
            Kind::Flag => KindView::Flag,
            Kind::Value => KindView::Value,
            Kind::Choice(p) => KindView::Choice(preset_views(p@)),
        },
        hint: o.hint@,
    }
}

/// The options as text.
pub open spec fn opt_views(v: Seq<OptSpec>) -> Seq<OptSpecView> {
    v.map_values(|o: OptSpec| opt_view(o))
}

/// Video quality as a yt-dlp format selector. Each one asks for the best
/// video at or below a height plus the best audio, falling back to whatever
/// single file comes closest: the `/b` half matters on sites that do not
/// offer separate streams.
pub open spec fn quality_table() -> Seq<(Seq<char>, Seq<char>)> {
    seq![
        ("best available"@, "bv*+ba/b"@),
        ("1080p"@, "bv*[height<=1080]+ba/b[height<=1080]"@),
        ("720p"@, "bv*[height<=720]+ba/b[height<=720]"@),
        ("480p"@, "bv*[height<=480]+ba/b[height<=480]"@),
        ("360p"@, "bv*[height<=360]+ba/b[height<=360]"@),
        ("smallest file"@, "wv*+wa/w"@),
        ("audio only"@, "ba/b"@),
    ]
}

/// The video qualities, as presets.
pub fn quality() -> (r: Vec<Preset>)
    ensures
        preset_views(r@) == quality_table(),
{
    let mut r: Vec<Preset> = Vec::new();
    r.push(Preset { label: "best available", value: "bv*+ba/b" });
    r.push(Preset { label: "1080p", value: "bv*[height<=1080]+ba/b[height<=1080]" });
    r.push(Preset { label: "720p", value: "bv*[height<=720]+ba/b[height<=720]" });
    r.push(Preset { label: "480p", value: "bv*[height<=480]+ba/b[height<=480]" });
    r.push(Preset { label: "360p", value: "bv*[height<=360]+ba/b[height<=360]" });
    r.push(Preset { label: "smallest file", value: "wv*+wa/w" });
    r.push(Preset { label: "audio only", value: "ba/b" });
    proof {
        assert(preset_views(r@) =~= quality_table());
    }
    r
}

/// aria2c's options.
pub open spec fn aria2_table() -> Seq<OptSpecView> {
    seq![
        OptSpecView { flag: "--split"@, label: "connections per download"@, kind: KindView::Value, hint: "1-16"@ },
        OptSpecView { flag: "--max-connection-per-server"@, label: "connections per server"@, kind: KindView::Value, hint: "1-16"@ },
        OptSpecView { flag: "--min-split-size"@, label: "minimum split size"@, kind: KindView::Value, hint: "e.g. 1M"@ },
        OptSpecView { flag: "--max-download-limit"@, label: "speed limit"@, kind: KindView::Value, hint: "e.g. 2M, 0 = off"@ },
        OptSpecView { flag: "--max-tries"@, label: "retries"@, kind: KindView::Value, hint: "0 = forever"@ },
        OptSpecView { flag: "--retry-wait"@, label: "retry wait (s)"@, kind: KindView::Value, hint: "seconds"@ },
        OptSpecView { flag: "--timeout"@, label: "timeout (s)"@, kind: KindView::Value, hint: "seconds"@ },
        OptSpecView { flag: "--user-agent"@, label: "user agent"@, kind: KindView::Value, hint: "sent as-is"@ },
        OptSpecView { flag: "--referer"@, label: "referer"@, kind: KindView::Value, hint: "url"@ },
        OptSpecView { flag: "--header"@, label: "extra header"@, kind: KindView::Value, hint: "Name: value"@ },
        OptSpecView { flag: "--all-proxy"@, label: "proxy"@, kind: KindView::Value, hint: "http://host:port"@ },
        OptSpecView { flag: "--file-allocation"@, label: "file allocation"@, kind: KindView::Value, hint: "none|prealloc|falloc"@ },
        OptSpecView { flag: "--check-integrity"@, label: "verify checksums"@, kind: KindView::Flag, hint: ""@ },
        OptSpecView { flag: "--auto-file-renaming=false"@, label: "overwrite instead of renaming"@, kind: KindView::Flag, hint: ""@ },
        OptSpecView { flag: "--remote-time"@, label: "keep remote timestamp"@, kind: KindView::Flag, hint: ""@ },
        OptSpecView { flag: "--seed-time=0"@, label: "torrents: stop seeding at 100%"@, kind: KindView::Flag, hint: ""@ },
    ]
}

/// aria2c's options.
pub fn aria2() -> (r: Vec<OptSpec>)
    ensures
        opt_views(r@) == aria2_table(),
{
    let mut r: Vec<OptSpec> = Vec::new();
    r.push(OptSpec { flag: "--split", label: "connections per download", kind: Kind::Value, hint: "1-16" });
    r.push(OptSpec { flag: "--max-connection-per-server", label: "connections per server", kind: Kind::Value, hint: "1-16" });
    r.push(OptSpec { flag: "--min-split-size", label: "minimum split size", kind: Kind::Value, hint: "e.g. 1M" });
    r.push(OptSpec { flag: "--max-download-limit", label: "speed limit", kind: Kind::Value, hint: "e.g. 2M, 0 = off" });
    r.push(OptSpec { flag: "--max-tries", label: "retries", kind: Kind::Value, hint: "0 = forever" });
    r.push(OptSpec { flag: "--retry-wait", label: "retry wait (s)", kind: Kind::Value, hint: "seconds" });
    r.push(OptSpec { flag: "--timeout", label: "timeout (s)", kind: Kind::Value, hint: "seconds" });
    r.push(OptSpec { flag: "--user-agent", label: "user agent", kind: Kind::Value, hint: "sent as-is" });
    r.push(OptSpec { flag: "--referer", label: "referer", kind: Kind::Value, hint: "url" });
    r.push(OptSpec { flag: "--header", label: "extra header", kind: Kind::Value, hint: "Name: value" });
    r.push(OptSpec { flag: "--all-proxy", label: "proxy", kind: Kind::Value, hint: "http://host:port" });
    r.push(OptSpec { flag: "--file-allocation", label: "file allocation", kind: Kind::Value, hint: "none|prealloc|falloc" });
    r.push(OptSpec { flag: "--check-integrity", label: "verify checksums", kind: Kind::Flag, hint: "" });
    r.push(OptSpec { flag: "--auto-file-renaming=false", label: "overwrite instead of renaming", kind: Kind::Flag, hint: "" });
    r.push(OptSpec { flag: "--remote-time", label: "keep remote timestamp", kind: Kind::Flag, hint: "" });
    r.push(OptSpec { flag: "--seed-time=0", label: "torrents: stop seeding at 100%", kind: Kind::Flag, hint: "" });
    proof {
        assert(opt_views(r@) =~= aria2_table());
    }
    r
}

/// yt-dlp's options. Long forms: yt-dlp reads `--format=x`, but `-f=x` would
/// hand it the literal `=x` and silently download the default quality.
pub open spec fn ytdlp_table() -> Seq<OptSpecView> {
    seq![
        OptSpecView { flag: "--format"@, label: "video quality"@, kind: KindView::Choice(quality_table()), hint: "space cycles"@ },
        OptSpecView { flag: "--output"@, label: "output template"@, kind: KindView::Value, hint: "%(title)s.%(ext)s"@ },
        OptSpecView { flag: "--limit-rate"@, label: "speed limit"@, kind: KindView::Value, hint: "e.g. 2M"@ },
        OptSpecView { flag: "--retries"@, label: "retries"@, kind: KindView::Value, hint: "number or infinite"@ },
        OptSpecView { flag: "--cookies-from-browser"@, label: "cookies from browser"@, kind: KindView::Value, hint: "firefox|chrome|…"@ },
        OptSpecView { flag: "--proxy"@, label: "proxy"@, kind: KindView::Value, hint: "http://host:port"@ },
        OptSpecView { flag: "--sub-langs"@, label: "subtitle languages"@, kind: KindView::Value, hint: "en,fa or all"@ },
        OptSpecView { flag: "--extract-audio"@, label: "audio only"@, kind: KindView::Flag, hint: ""@ },
        OptSpecView { flag: "--write-subs"@, label: "download subtitles"@, kind: KindView::Flag, hint: ""@ },
        OptSpecView { flag: "--embed-thumbnail"@, label: "embed thumbnail"@, kind: KindView::Flag, hint: ""@ },
        OptSpecView { flag: "--embed-metadata"@, label: "embed metadata"@, kind: KindView::Flag, hint: ""@ },
        OptSpecView { flag: "--no-playlist"@, label: "single video, not playlist"@, kind: KindView::Flag, hint: ""@ },
    ]
}

/// yt-dlp's options.
pub fn ytdlp() -> (r: Vec<OptSpec>)
    ensures
        opt_views(r@) == ytdlp_table(),
{
    let mut r: Vec<OptSpec> = Vec::new();
    r.push(OptSpec { flag: "--format", label: "video quality", kind: Kind::Choice(quality()), hint: "space cycles" });
    r.push(OptSpec { flag: "--output", label: "output template", kind: Kind::Value, hint: "%(title)s.%(ext)s" });
    r.push(OptSpec { flag: "--limit-rate", label: "speed limit", kind: Kind::Value, hint: "e.g. 2M" });
    r.push(OptSpec { flag: "--retries", label: "retries", kind: Kind::Value, hint: "number or infinite" });
    r.push(OptSpec { flag: "--cookies-from-browser", label: "cookies from browser", kind: Kind::Value, hint: "firefox|chrome|…" });
    r.push(OptSpec { flag: "--proxy", label: "proxy", kind: Kind::Value, hint: "http://host:port" });
    r.push(OptSpec { flag: "--sub-langs", label: "subtitle languages", kind: Kind::Value, hint: "en,fa or all" });
    r.push(OptSpec { flag: "--extract-audio", label: "audio only", kind: Kind::Flag, hint: "" });
    r.push(OptSpec { flag: "--write-subs", label: "download subtitles", kind: Kind::Flag, hint: "" });
    r.push(OptSpec { flag: "--embed-thumbnail", label: "embed thumbnail", kind: Kind::Flag, hint: "" });
    r.push(OptSpec { flag: "--embed-metadata", label: "embed metadata", kind: Kind::Flag, hint: "" });
    r.push(OptSpec { flag: "--no-playlist", label: "single video, not playlist", kind: Kind::Flag, hint: "" });
    proof {
        assert(opt_views(r@) =~= ytdlp_table());
    }
    r
}

/// Crawl-wide wget settings; a crawl's own recursion flags come from its form.
pub open spec fn wget_table() -> Seq<OptSpecView> {
    seq![
        OptSpecView { flag: "--limit-rate"@, label: "speed limit"@, kind: KindView::Value, hint: "e.g. 2M"@ },
        OptSpecView { flag: "--wait"@, label: "wait between requests (s)"@, kind: KindView::Value, hint: "seconds"@ },
        OptSpecView { flag: "--user-agent"@, label: "user agent"@, kind: KindView::Value, hint: "sent as-is"@ },
        OptSpecView { flag: "--header"@, label: "extra header"@, kind: KindView::Value, hint: "Name: value"@ },
        OptSpecView { flag: "--reject"@, label: "never fetch"@, kind: KindView::Value, hint: "e.g. *.exe,*.zip"@ },
        OptSpecView { flag: "--exclude-directories"@, label: "skip directories"@, kind: KindView::Value, hint: "/cgi-bin,/tmp"@ },
        OptSpecView { flag: "--continue"@, label: "resume partial files"@, kind: KindView::Flag, hint: ""@ },
        OptSpecView { flag: "-e robots=off"@, label: "ignore robots.txt"@, kind: KindView::Flag, hint: ""@ },
        OptSpecView { flag: "--no-check-certificate"@, label: "skip certificate checks"@, kind: KindView::Flag, hint: ""@ },
    ]
}

/// Crawl-wide wget settings.
pub fn wget() -> (r: Vec<OptSpec>)
    ensures
        opt_views(r@) == wget_table(),
{
    let mut r: Vec<OptSpec> = Vec::new();
    r.push(OptSpec { flag: "--limit-rate", label: "speed limit", kind: Kind::Value, hint: "e.g. 2M" });
    r.push(OptSpec { flag: "--wait", label: "wait between requests (s)", kind: Kind::Value, hint: "seconds" });
    r.push(OptSpec { flag: "--user-agent", label: "user agent", kind: Kind::Value, hint: "sent as-is" });
    r.push(OptSpec { flag: "--header", label: "extra header", kind: Kind::Value, hint: "Name: value" });
    r.push(OptSpec { flag: "--reject", label: "never fetch", kind: Kind::Value, hint: "e.g. *.exe,*.zip" });
    r.push(OptSpec { flag: "--exclude-directories", label: "skip directories", kind: Kind::Value, hint: "/cgi-bin,/tmp" });
    r.push(OptSpec { flag: "--continue", label: "resume partial files", kind: Kind::Flag, hint: "" });
    r.push(OptSpec { flag: "-e robots=off", label: "ignore robots.txt", kind: Kind::Flag, hint: "" });
    r.push(OptSpec { flag: "--no-check-certificate", label: "skip certificate checks", kind: Kind::Flag, hint: "" });
    proof {
        assert(opt_views(r@) =~= wget_table());
    }
    r
}

/// Defaults for the crawl form, stored the same way a backend's flags are.
/// These are not passed to wget: a crawl's own words override them.
pub open spec fn crawl_table() -> Seq<OptSpecView> {
    seq![
        OptSpecView { flag: "depth"@, label: "depth"@, kind: KindView::Value, hint: "how many links deep"@ },
        OptSpecView { flag: "extensions"@, label: "extensions"@, kind: KindView::Value, hint: "e.g. pdf,mp4"@ },
        OptSpecView { flag: "size"@, label: "size min-max"@, kind: KindView::Value, hint: "e.g. 1M-500M"@ },
        OptSpecView { flag: "any-domain"@, label: "follow links off the host"@, kind: KindView::Flag, hint: ""@ },
        OptSpecView { flag: "under-path"@, label: "stay under the start url"@, kind: KindView::Flag, hint: ""@ },
        OptSpecView { flag: "no-robots"@, label: "ignore robots.txt and nofollow"@, kind: KindView::Flag, hint: ""@ },
        OptSpecView { flag: "flat"@, label: "save without the directory tree"@, kind: KindView::Flag, hint: ""@ },
    ]
}

/// Defaults for the crawl form.
pub fn crawl() -> (r: Vec<OptSpec>)
    ensures
        opt_views(r@) == crawl_table(),
{
    let mut r: Vec<OptSpec> = Vec::new();
    r.push(OptSpec { flag: "depth", label: "depth", kind: Kind::Value, hint: "how many links deep" });
    r.push(OptSpec { flag: "extensions", label: "extensions", kind: Kind::Value, hint: "e.g. pdf,mp4" });
    r.push(OptSpec { flag: "size", label: "size min-max", kind: Kind::Value, hint: "e.g. 1M-500M" });
    r.push(OptSpec { flag: "any-domain", label: "follow links off the host", kind: Kind::Flag, hint: "" });
    r.push(OptSpec { flag: "under-path", label: "stay under the start url", kind: Kind::Flag, hint: "" });
    r.push(OptSpec { flag: "no-robots", label: "ignore robots.txt and nofollow", kind: Kind::Flag, hint: "" });
    r.push(OptSpec { flag: "flat", label: "save without the directory tree", kind: Kind::Flag, hint: "" });
    proof {
        assert(opt_views(r@) =~= crawl_table());
    }
    r
}

/// The options a backend's panel shows: aria2c's, wget's, the crawl form's,
/// and yt-dlp's for every other name.
pub open spec fn table(backend: Seq<char>) -> Seq<OptSpecView> {
    if backend == "aria2c"@ {
        aria2_table()
    } else if backend == "wget"@ {
        wget_table()
    } else if backend == "crawl"@ {
        crawl_table()
    } else {
        ytdlp_table()
    }
}

/// The options a backend's panel shows.
pub fn specs(backend: &str) -> (r: Vec<OptSpec>)
    ensures
        opt_views(r@) == table(backend@),
{
    let b = text::chars_of(backend);
    if text::same(b.as_slice(), text::chars_of("aria2c").as_slice()) {
        aria2()
    } else if text::same(b.as_slice(), text::chars_of("wget").as_slice()) {
        wget()
    } else if text::same(b.as_slice(), text::chars_of("crawl").as_slice()) {
        crawl()
    } else {
        ytdlp()
    }
}

} // verus!
