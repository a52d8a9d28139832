//! The download tools muxget drives, which url goes to which, and the command
//! line and login file each one is given.
use vstd::prelude::*;

use crate::download::Overrides;
use crate::seqs;
use crate::text;
use crate::utils::{is_listed, push_joined, push_str, strings};
use crate::ytdlp::{exit_of, exit_text, push_strings, target_dir, YtDlp};

verus! {

// ---------------------------------------------------------------------------
// aria2c
// ---------------------------------------------------------------------------

/// The aria2c backend: direct files, torrents and magnets.
pub struct Aria2;

/// The extensions of a direct file, lowercase; anything else is a page that
/// yt-dlp knows how to dig through.
pub open spec fn file_ext(i: int) -> Seq<char> {
    if i == 0 { ".zip"@ } else if i == 1 { ".tar"@ } else if i == 2 { ".gz"@ }
    else if i == 3 { ".xz"@ } else if i == 4 { ".zst"@ } else if i == 5 { ".7z"@ }
    else if i == 6 { ".rar"@ } else if i == 7 { ".iso"@ } else if i == 8 { ".img"@ }
    else if i == 9 { ".deb"@ } else if i == 10 { ".rpm"@ } else if i == 11 { ".pkg"@ }
    else if i == 12 { ".exe"@ } else if i == 13 { ".msi"@ } else if i == 14 { ".dmg"@ }
    else if i == 15 { ".appimage"@ } else if i == 16 { ".bin"@ } else if i == 17 { ".pdf"@ }
    else if i == 18 { ".epub"@ } else if i == 19 { ".jpg"@ } else if i == 20 { ".png"@ }
    else if i == 21 { ".mp3"@ } else { ".flac"@ }
}

/// How many extensions `file_ext` lists.
pub const FILE_EXTS: usize = 23;

fn file_ext_at(i: usize) -> (r: &'static str)
    requires
        i < FILE_EXTS,
    ensures
        r@ == file_ext(i as int),
{
    if i == 0 { ".zip" } else if i == 1 { ".tar" } else if i == 2 { ".gz" }
    else if i == 3 { ".xz" } else if i == 4 { ".zst" } else if i == 5 { ".7z" }
    else if i == 6 { ".rar" } else if i == 7 { ".iso" } else if i == 8 { ".img" }
    else if i == 9 { ".deb" } else if i == 10 { ".rpm" } else if i == 11 { ".pkg" }
    else if i == 12 { ".exe" } else if i == 13 { ".msi" } else if i == 14 { ".dmg" }
    else if i == 15 { ".appimage" } else if i == 16 { ".bin" } else if i == 17 { ".pdf" }
    else if i == 18 { ".epub" } else if i == 19 { ".jpg" } else if i == 20 { ".png" }
    else if i == 21 { ".mp3" } else { ".flac" }
}

/// A url aria2c takes: a magnet, ftp, a torrent, or a path ending in the
/// extension of a direct file. Case does not matter.
pub open spec fn aria2_takes(url: Seq<char>) -> bool {
    let u = text::lowercase(url);
    let path = seqs::before_any(u, seq!['?', '#']);
    ||| seqs::starts_with(u, "magnet:"@)
    ||| seqs::starts_with(u, "ftp://"@)
    ||| seqs::ends_with(u, ".torrent"@)
    ||| exists|i: int| 0 <= i < FILE_EXTS && seqs::ends_with(path, #[trigger] file_ext(i))
}

/// What aria2c's documented exit codes mean.
pub open spec fn aria2_reason(code: int) -> Seq<char> {
    if code == 1 { "unknown error"@ }
    else if code == 2 { "timed out"@ }
    else if code == 3 { "resource not found"@ }
    else if code == 5 { "download too slow"@ }
    else if code == 6 { "network problem"@ }
    else if code == 9 { "not enough disk space"@ }
    else if code == 13 { "the file already exists"@ }
    else if code == 19 { "name resolution failed"@ }
    else if code == 24 { "authorization failed"@ }
    else if code == 32 { "checksum validation failed"@ }
    else { exit_text(code) }
}

/// An aria2c config file holding a login.
pub open spec fn aria2_login(user: Seq<char>, pass: Seq<char>) -> Seq<char> {
    "http-user="@ + user + "\nhttp-passwd="@ + pass + "\n"@
}

/// The flags aria2c is run with for one download: a summary every second,
/// quiet logs, resume, the directory, the configured flags, then this item's
/// own name and rate so they beat the configured ones, then the url.
pub open spec fn aria2_args_of(url: Seq<char>, dir: Seq<char>, over: Overrides, saved: Seq<Seq<char>>) -> Seq<
    Seq<char>,
> {
    seq![
        "--summary-interval=1"@,
        "--console-log-level=warn"@,
        "--continue=true"@,
        "--dir"@,
        target_dir(dir, over),
    ] + saved + (if over.name@.len() > 0 {
        seq!["--out"@, over.name@]
    } else {
        seq![]
    }) + (if over.rate@.len() > 0 {
        seq!["--max-download-limit="@ + over.rate@]
    } else {
        seq![]
    }) + seq![url]
}

impl Aria2 {
    pub fn name(&self) -> (r: &'static str)
        ensures
            r@ == "aria2c"@,
    {
        "aria2c"
    }

    /// Direct files, torrents and magnets go to aria2c.
    pub fn accepts(&self, url: &str) -> (r: bool)
        ensures
            r == aria2_takes(url@),
    {
        let u = text::lower(text::chars_of(url).as_slice());
        if text::starts_with(u.as_slice(), text::chars_of("magnet:").as_slice())
            || text::starts_with(u.as_slice(), text::chars_of("ftp://").as_slice())
            || text::ends_with(u.as_slice(), text::chars_of(".torrent").as_slice()) {
            return true;
        }
        let path = text::before_any(u.as_slice(), text::two('?', '#').as_slice());
        let mut i: usize = 0;
        while i < FILE_EXTS
            invariant
                i <= FILE_EXTS,
                path@ == seqs::before_any(text::lowercase(url@), seq!['?', '#']),
                forall|j: int| 0 <= j < i ==> !seqs::ends_with(path@, #[trigger] file_ext(j)),
            decreases FILE_EXTS - i,
        {
            if text::ends_with(path.as_slice(), text::chars_of(file_ext_at(i)).as_slice()) {
                return true;
            }
            i += 1;
        }
        false
    }

    /// The flag aria2c reads a config file with.
    pub fn config_flag(&self) -> (r: &'static str)
        ensures
            r@ == "--conf-path"@,
    {
        "--conf-path"
    }

    /// A login as aria2c's config file spells it.
    pub fn credentials(&self, user: &str, pass: &str) -> (r: String)
        ensures
            r@ == aria2_login(user@, pass@),
    {
        let mut v = text::chars_of("http-user=");
        text::push_all(&mut v, text::chars_of(user).as_slice());
        text::push_all(&mut v, text::chars_of("\nhttp-passwd=").as_slice());
        text::push_all(&mut v, text::chars_of(pass).as_slice());
        text::push_all(&mut v, text::chars_of("\n").as_slice());
        proof {
            assert(v@ =~= aria2_login(user@, pass@));
        }
        text::string_of(v.as_slice())
    }

    /// aria2c's exit codes in words; an undocumented one is its number.
    pub fn reason(&self, code: i32) -> (r: String)
        ensures
            r@ == aria2_reason(code as int),
    {
        let s = if code == 1 { "unknown error" }
            else if code == 2 { "timed out" }
            else if code == 3 { "resource not found" }
            else if code == 5 { "download too slow" }
            else if code == 6 { "network problem" }
            else if code == 9 { "not enough disk space" }
            else if code == 13 { "the file already exists" }
            else if code == 19 { "name resolution failed" }
            else if code == 24 { "authorization failed" }
            else if code == 32 { "checksum validation failed" }
            else { return exit_of(code) };
        s.to_owned()
    }

    /// The arguments for one download; `saved` are the flags from the
    /// backend's own file.
    pub fn command(&self, url: &str, dir: &str, over: &Overrides, saved: &[String]) -> (r: Vec<String>)
        ensures
            strings(r@) == aria2_args_of(url@, dir@, *over, strings(saved@)),
    {
        let mut a: Vec<String> = Vec::new();
        push_str(&mut a, "--summary-interval=1");
        push_str(&mut a, "--console-log-level=warn");
        push_str(&mut a, "--continue=true");
        push_str(&mut a, "--dir");
        if over.dir.as_str().is_empty() {
            push_str(&mut a, dir);
        } else {
            push_str(&mut a, over.dir.as_str());
        }
        push_strings(&mut a, saved);
        if !over.name.as_str().is_empty() {
            push_str(&mut a, "--out");
            push_str(&mut a, over.name.as_str());
        }
        if !over.rate.as_str().is_empty() {
            push_joined(&mut a, "--max-download-limit=", text::chars_of(over.rate.as_str()).as_slice());
        }
        push_str(&mut a, url);
        proof {
            assert(strings(a@) =~= aria2_args_of(url@, dir@, *over, strings(saved@)));
        }
        a
    }
}

// ---------------------------------------------------------------------------
// wget
// ---------------------------------------------------------------------------

/// The crawler's backend. wget already recurses, de-duplicates, maps url
/// paths to directories, rewrites links and skips unchanged files, so a crawl
/// is a wget invocation rather than a crawler of its own.
#[derive(Debug, Clone, PartialEq)]
pub struct Wget {
    /// The url of the request wget is reporting on; its errors name the
    /// failure a line or two after the url they belong to.
    pub at: String,
    /// Files this run left alone because the server's copy was no newer.
    pub skipped: u32,
}

/// wget's documented exit codes.
pub open spec fn wget_reason(code: int) -> Seq<char> {
    if code == 1 { "wget was called wrong"@ }
    else if code == 2 { "bad wget config"@ }
    else if code == 3 { "could not write the file"@ }
    else if code == 4 { "network problem"@ }
    else if code == 5 { "certificate problem"@ }
    else if code == 6 { "authorization failed"@ }
    else if code == 7 { "protocol error"@ }
    else if code == 8 { "the server refused some of it"@ }
    else { exit_text(code) }
}

/// A wgetrc holding a login.
pub open spec fn wget_login(user: Seq<char>, pass: Seq<char>) -> Seq<char> {
    "user = "@ + user + "\npassword = "@ + pass + "\n"@
}

/// The url a wget request line announces, `--<time>--  <url>`.
pub open spec fn announced(line: Seq<char>) -> Option<Seq<char>> {
    match seqs::split_once(line, "--  "@) {
        Some((_, u)) => if seqs::starts_with(seqs::trim(u), "http"@) {
            Some(seqs::trim(u))
        } else {
            None
        },
        None => None,
    }
}

/// A line saying the local copy is already current.
pub open spec fn unchanged_line(line: Seq<char>) -> bool {
    seqs::contains(line, "Omitting download"@) || seqs::contains(line, "-- not retrieving"@)
}

/// What wget has to say to the user about one line, given the url it is
/// reporting on and the unchanged files counted so far (this line included).
pub open spec fn notice_of(line: Seq<char>, at: Seq<char>, skipped: nat) -> Option<Seq<char>> {
    if unchanged_line(line) {
        Some(seqs::decimal(skipped) + " unchanged files skipped"@)
    } else {
        match seqs::split_once(line, " ERROR "@) {
            Some((_, reason)) => Some("missing "@ + at + ": "@ + seqs::trim(reason)),
            None => if seqs::contains(line, "broken link"@) || seqs::contains(
                line,
                "unable to resolve"@,
            ) {
                Some("missing "@ + at)
            } else if seqs::starts_with(seqs::trim(line), "Downloaded: "@) {
                let done = seqs::trim(line).skip(12);
                if skipped == 0 {
                    Some("crawl finished: "@ + done)
                } else {
                    Some("crawl finished: "@ + done + ", "@ + seqs::decimal(skipped)
                        + " unchanged files skipped"@)
                }
            } else {
                None
            },
        }
    }
}

/// The flags wget is run with for one download or crawl: dot progress (the
/// only kind it logs), the directory, the configured flags, this item's rate
/// and name, the crawl's own flags, then the log to stdout and the url.
pub open spec fn wget_args_of(
    url: Seq<char>,
    dir: Seq<char>,
    over: Overrides,
    saved: Seq<Seq<char>>,
    crawl: Seq<Seq<char>>,
) -> Seq<Seq<char>> {
    seq!["--progress=dot:mega"@, "--directory-prefix"@, target_dir(dir, over)] + saved + (if over.rate@.len()
        > 0 {
        seq!["--limit-rate="@ + over.rate@]
    } else {
        seq![]
    }) + (if over.name@.len() > 0 {
        seq!["--output-document"@, over.name@]
    } else {
        seq![]
    }) + crawl + seq!["--output-file"@, "-"@, url]
}

impl Default for Wget {
    fn default() -> (r: Wget)
        ensures
            r.at@.len() == 0 && r.skipped == 0,
    {
        Wget::new()
    }
}

impl Wget {
    /// Nothing seen yet.
    pub fn new() -> (r: Wget)
        ensures
            r.at@.len() == 0 && r.skipped == 0,
    {
        Wget { at: String::new(), skipped: 0 }
    }

    pub fn name(&self) -> (r: &'static str)
        ensures
            r@ == "wget"@,
    {
        "wget"
    }

    /// Never claims a url on its own: a crawl or a rule asks for it by name,
    /// and aria2c is the better fetcher for a plain file.
    pub fn accepts(&self, url: &str) -> (r: bool)
        ensures
            !r,
    {
        false
    }

    /// Some of the site's resources were not there; every one of them was
    /// reported as it happened, and the rest of the copy is good.
    pub fn tolerates(&self, code: i32) -> (r: bool)
        ensures
            r == (code == 8),
    {
        code == 8
    }

    /// wget's documented exit codes.
    pub fn reason(&self, code: i32) -> (r: String)
        ensures
            r@ == wget_reason(code as int),
    {
        let s = if code == 1 { "wget was called wrong" }
            else if code == 2 { "bad wget config" }
            else if code == 3 { "could not write the file" }
            else if code == 4 { "network problem" }
            else if code == 5 { "certificate problem" }
            else if code == 6 { "authorization failed" }
            else if code == 7 { "protocol error" }
            else if code == 8 { "the server refused some of it" }
            else { return exit_of(code) };
        s.to_owned()
    }

    /// The flag wget reads a config file with.
    pub fn config_flag(&self) -> (r: &'static str)
        ensures
            r@ == "--config"@,
    {
        "--config"
    }

    /// A login as a wgetrc spells it.
    pub fn credentials(&self, user: &str, pass: &str) -> (r: String)
        ensures
            r@ == wget_login(user@, pass@),
    {
        let mut v = text::chars_of("user = ");
        text::push_all(&mut v, text::chars_of(user).as_slice());
        text::push_all(&mut v, text::chars_of("\npassword = ").as_slice());
        text::push_all(&mut v, text::chars_of(pass).as_slice());
        text::push_all(&mut v, text::chars_of("\n").as_slice());
        proof {
            assert(v@ =~= wget_login(user@, pass@));
        }
        text::string_of(v.as_slice())
    }

    /// Follows the request lines, so an error can name the url it is about.
    pub fn watch(&mut self, line: &str)
        ensures
            final(self).skipped == old(self).skipped,
            final(self).at@ == match announced(line@) {
                Some(u) => u,
                None => old(self).at@,
            },
    {
        let l = text::chars_of(line);
        match text::split_once(l.as_slice(), text::chars_of("--  ").as_slice()) {
            Some((_, u)) => {
                let u = text::trim(u.as_slice());
                if text::starts_with(u.as_slice(), text::chars_of("http").as_slice()) {
                    self.at = text::string_of(u.as_slice());
                }
            },
            None => {},
        }
    }

    /// What a crawl has to say for itself: resources it could not fetch, and
    /// the tally at the end, including what a re-crawl left alone.
    pub fn notice(&mut self, line: &str) -> (r: Option<String>)
        ensures
            final(self).at == old(self).at,
            final(self).skipped == if unchanged_line(line@) && old(self).skipped < u32::MAX {
                (old(self).skipped + 1) as u32
            } else {
                old(self).skipped
            },
            match notice_of(line@, old(self).at@, final(self).skipped as nat) {
                Some(n) => r matches Some(s) && s@ == n,
                None => r is None,
            },
    {
        let l = text::chars_of(line);
        let ls = l.as_slice();
        if text::contains(ls, text::chars_of("Omitting download").as_slice())
            || text::contains(ls, text::chars_of("-- not retrieving").as_slice()) {
            self.skipped = self.skipped.saturating_add(1);
            let mut v = text::decimal(self.skipped as u64);
            text::push_all(&mut v, text::chars_of(" unchanged files skipped").as_slice());
            return Some(text::string_of(v.as_slice()));
        }
        match text::split_once(ls, text::chars_of(" ERROR ").as_slice()) {
            Some((_, reason)) => {
                let mut v = text::chars_of("missing ");
                text::push_all(&mut v, text::chars_of(self.at.as_str()).as_slice());
                text::push_all(&mut v, text::chars_of(": ").as_slice());
                text::push_all(&mut v, text::trim(reason.as_slice()).as_slice());
                proof {
                    assert(v@ =~= "missing "@ + self.at@ + ": "@ + seqs::trim(reason@));
                }
                return Some(text::string_of(v.as_slice()));
            },
            None => {},
        }
        if text::contains(ls, text::chars_of("broken link").as_slice())
            || text::contains(ls, text::chars_of("unable to resolve").as_slice()) {
            let mut v = text::chars_of("missing ");
            text::push_all(&mut v, text::chars_of(self.at.as_str()).as_slice());
            return Some(text::string_of(v.as_slice()));
        }
        let t = text::trim(ls);
        let head = text::chars_of("Downloaded: ");
        proof {
            reveal_strlit("Downloaded: ");
        }
        if !text::starts_with(t.as_slice(), head.as_slice()) {
            return None;
        }
        let n = t.len();
        let done = text::slice_of(t.as_slice(), 12, n);
        proof {
            assert(done@ =~= seqs::trim(l@).skip(12));
        }
        let mut v = text::chars_of("crawl finished: ");
        text::push_all(&mut v, done.as_slice());
        if self.skipped > 0 {
            text::push_all(&mut v, text::chars_of(", ").as_slice());
            text::push_all(&mut v, text::decimal(self.skipped as u64).as_slice());
            text::push_all(&mut v, text::chars_of(" unchanged files skipped").as_slice());
            proof {
                assert(v@ =~= "crawl finished: "@ + done@ + ", "@ + seqs::decimal(self.skipped as nat)
                    + " unchanged files skipped"@);
            }
        }
        Some(text::string_of(v.as_slice()))
    }

    /// The arguments for one download or crawl; `saved` are the flags from
    /// the backend's own file and `crawl` the crawl's own.
    pub fn command(
        &self,
        url: &str,
        dir: &str,
        over: &Overrides,
        saved: &[String],
        crawl: &[String],
    ) -> (r: Vec<String>)
        ensures
            strings(r@) == wget_args_of(url@, dir@, *over, strings(saved@), strings(crawl@)),
    {
        let mut a: Vec<String> = Vec::new();
        push_str(&mut a, "--progress=dot:mega");
        push_str(&mut a, "--directory-prefix");
        if over.dir.as_str().is_empty() {
            push_str(&mut a, dir);
        } else {
            push_str(&mut a, over.dir.as_str());
        }
        push_strings(&mut a, saved);
        if !over.rate.as_str().is_empty() {
            push_joined(&mut a, "--limit-rate=", text::chars_of(over.rate.as_str()).as_slice());
        }
        if !over.name.as_str().is_empty() {
            push_str(&mut a, "--output-document");
            push_str(&mut a, over.name.as_str());
        }
        push_strings(&mut a, crawl);
        push_str(&mut a, "--output-file");
        push_str(&mut a, "-");
        push_str(&mut a, url);
        proof {
            assert(strings(a@) =~= wget_args_of(url@, dir@, *over, strings(saved@), strings(crawl@)));
        }
        a
    }
}

// ---------------------------------------------------------------------------
// The registry
// ---------------------------------------------------------------------------

/// A download tool muxget drives.
#[derive(Debug, Clone, Copy, PartialEq, Eq)]
pub enum Tool {
    Aria2,
    YtDlp,
    Wget,
}

/// A tool's name, as its program is called.
pub open spec fn tool_name(t: Tool) -> Seq<char> {
    match t {
        Tool::Aria2 => "aria2c"@,
        Tool::YtDlp => "yt-dlp"@,
        Tool::Wget => "wget"@,
    }
}

/// Whether a tool claims a url by itself.
pub open spec fn tool_takes(t: Tool, url: Seq<char>) -> bool {
    match t {
        Tool::Aria2 => aria2_takes(url),
        Tool::YtDlp => seqs::starts_with(url, "http://"@) || seqs::starts_with(url, "https://"@),
        Tool::Wget => false,
    }
}

/// Every tool, in the order they are asked.
pub open spec fn registry() -> Seq<Tool> {
    seq![Tool::Aria2, Tool::YtDlp, Tool::Wget]
}

/// The first tool that claims the url.
pub open spec fn picked(url: Seq<char>) -> Option<Tool> {
    if tool_takes(Tool::Aria2, url) {
        Some(Tool::Aria2)
    } else if tool_takes(Tool::YtDlp, url) {
        Some(Tool::YtDlp)
    } else {
        None
    }
}

impl Tool {
    pub fn name(&self) -> (r: &'static str)
        ensures
            r@ == tool_name(*self),
    {
        match self {
            Tool::Aria2 => Aria2.name(),
            Tool::YtDlp => YtDlp.name(),
            Tool::Wget => Wget::new().name(),
        }
    }

    /// Does this tool want to handle `url`?
    pub fn accepts(&self, url: &str) -> (r: bool)
        ensures
            r == tool_takes(*self, url@),
    {
        match self {
            Tool::Aria2 => Aria2.accepts(url),
            Tool::YtDlp => YtDlp.accepts(url),
            Tool::Wget => false,
        }
    }

    /// What a non-zero exit code means, for tools that document theirs.
    pub fn reason(&self, code: i32) -> (r: String)
        ensures
            r@ == match *self {
                Tool::Aria2 => aria2_reason(code as int),
                Tool::YtDlp => exit_text(code as int),
                Tool::Wget => wget_reason(code as int),
            },
    {
        match self {
            Tool::Aria2 => Aria2.reason(code),
            Tool::YtDlp => YtDlp.reason(code),
            Tool::Wget => Wget::new().reason(code),
        }
    }

    /// A non-zero exit this tool does not count as a failure.
    pub fn tolerates(&self, code: i32) -> (r: bool)
        ensures
            r == (*self == Tool::Wget && code == 8),
    {
        match self {
            Tool::Wget => code == 8,
            _ => false,
        }
    }

    /// The flag this tool reads a config file with.
    pub fn config_flag(&self) -> (r: &'static str)
        ensures
            r@ == match *self {
                Tool::Aria2 => "--conf-path"@,
                Tool::YtDlp => "--config-location"@,
                Tool::Wget => "--config"@,
            },
    {
        match self {
            Tool::Aria2 => Aria2.config_flag(),
            Tool::YtDlp => YtDlp.config_flag(),
            Tool::Wget => Wget::new().config_flag(),
        }
    }

    /// A login as this tool's config file spells it. Credentials go through a
    /// file so `ps` cannot show them.
    pub fn credentials(&self, user: &str, pass: &str) -> (r: String)
        ensures
            r@ == match *self {
                Tool::Aria2 => aria2_login(user@, pass@),
                Tool::YtDlp => crate::ytdlp::ytdlp_login(user@, pass@),
                Tool::Wget => wget_login(user@, pass@),
            },
    {
        match self {
            Tool::Aria2 => Aria2.credentials(user, pass),
            Tool::YtDlp => YtDlp.credentials(user, pass),
            Tool::Wget => Wget::new().credentials(user, pass),
        }
    }
}

/// A torrent by its url: a magnet, or a `.torrent` file, whatever the case.
/// Force restarting is for these only; what a stuck torrent needs is the
/// swarm, not a place in the queue.
pub open spec fn torrent_url(url: Seq<char>) -> bool {
    let u = text::lowercase(url);
    seqs::starts_with(u, "magnet:"@) || seqs::ends_with(u, ".torrent"@)
}

/// Whether a url names a torrent.
pub fn is_torrent(url: &str) -> (r: bool)
    ensures
        r == torrent_url(url@),
{
    let u = text::lower(text::chars_of(url).as_slice());
    text::starts_with(u.as_slice(), text::chars_of("magnet:").as_slice())
        || text::ends_with(u.as_slice(), text::chars_of(".torrent").as_slice())
}

/// Every tool, in the order they are asked.
pub fn backends() -> (r: Vec<Tool>)
    ensures
        r@ == registry(),
{
    let mut v: Vec<Tool> = Vec::new();
    v.push(Tool::Aria2);
    v.push(Tool::YtDlp);
    v.push(Tool::Wget);
    proof {
        assert(v@ =~= registry());
    }
    v
}

/// The first tool that claims the url.
pub fn pick(url: &str) -> (r: Option<Tool>)
    ensures
        r == picked(url@),
{
    if Aria2.accepts(url) {
        Some(Tool::Aria2)
    } else if YtDlp.accepts(url) {
        Some(Tool::YtDlp)
    } else {
        None
    }
}

/// A tool by name, for a routing rule that names one.
pub fn named(name: &str) -> (r: Option<Tool>)
    ensures
        match r {
            Some(t) => tool_name(t) == name@,
            None => forall|i: int| 0 <= i < 3 ==> tool_name(#[trigger] registry()[i]) != name@,
        },
{
    let n = text::chars_of(name);
    let tools = backends();
    let mut i: usize = 0;
    while i < tools.len()
        invariant
            i <= tools@.len(),
            tools@ == registry(),
            n@ == name@,
            forall|j: int| 0 <= j < i ==> tool_name(#[trigger] registry()[j]) != name@,
        decreases tools@.len() - i,
    {
        let t = tools[i];
        if text::same(text::chars_of(t.name()).as_slice(), n.as_slice()) {
            return Some(t);
        }
        i += 1;
    }
    None
}

/// The registry's names that are not in `installed`, in registry order.
/// Empty is the happy case, so a caller can treat it as a boolean.
pub open spec fn missing_among(installed: Seq<Seq<char>>) -> Seq<Seq<char>> {
    registry().map_values(|t: Tool| tool_name(t)).filter(absent(installed))
}

/// Not one of `installed`.
pub open spec fn absent(installed: Seq<Seq<char>>) -> spec_fn(Seq<char>) -> bool {
    |n: Seq<char>| !installed.contains(n)
}

/// Tools muxget drives that are not installed, in registry order; the
/// caller says which programs are on `PATH`.
pub fn missing_backends(installed: &[String]) -> (r: Vec<&'static str>)
    ensures
        r@.map_values(|s: &str| s@) == missing_among(strings(installed@)),
{
    let tools = backends();
    let mut r: Vec<&'static str> = Vec::new();
    let mut i: usize = 0;
    let ghost names = registry().map_values(|t: Tool| tool_name(t));
    let ghost inst = strings(installed@);
    proof {
        reveal(Seq::filter);
        assert(names.take(0).filter(absent(inst)) =~= Seq::<Seq<char>>::empty());
    }
    while i < tools.len()
        invariant
            i <= tools@.len(),
            tools@ == registry(),
            names == registry().map_values(|t: Tool| tool_name(t)),
            inst == strings(installed@),
            r@.map_values(|s: &str| s@) == names.take(i as int).filter(absent(inst)),
        decreases tools@.len() - i,
    {
        let name = tools[i].name();
        let here = is_listed(installed, name);
        let ghost before = r@;
        proof {
            assert(names.take(i + 1).drop_last() =~= names.take(i as int));
            assert(names.take(i + 1).last() == name@);
            assert(here == inst.contains(name@));
            assert(names.take(i as int).push(name@) =~= names.take(i + 1));
            names.take(i as int).lemma_filter_push(name@, absent(inst));
            assert(absent(inst)(name@) == !here);
        }
        if !here {
            r.push(name);
            proof {
                assert(r@.map_values(|s: &str| s@) =~= before.map_values(|s: &str| s@).push(name@));
            }
        }
        i += 1;
    }
    proof {
        assert(names.take(3) =~= names);
    }
    r
}

/// Every direct-file extension counts, the first as much as the last: a
/// url whose path, lowercased and cut before any query or fragment, ends
/// in one of them goes to aria2c.
pub proof fn law_direct_files_go_to_aria2(url: Seq<char>, i: int)
    requires
        0 <= i < FILE_EXTS,
        seqs::ends_with(seqs::before_any(text::lowercase(url), seq!['?', '#']), file_ext(i)),
    ensures
        aria2_takes(url),
        picked(url) == Some(Tool::Aria2),
{
    assert(seqs::ends_with(seqs::before_any(text::lowercase(url), seq!['?', '#']), file_ext(i)));
}

/// Magnets, ftp and torrents go to aria2c whatever their case, and so does
/// nothing else but a direct file.
pub proof fn law_aria2_takes_magnets_ftp_and_torrents(url: Seq<char>)
    ensures
        seqs::starts_with(text::lowercase(url), "magnet:"@) ==> picked(url) == Some(Tool::Aria2),
        seqs::starts_with(text::lowercase(url), "ftp://"@) ==> picked(url) == Some(Tool::Aria2),
        seqs::ends_with(text::lowercase(url), ".torrent"@) ==> picked(url) == Some(Tool::Aria2),
        picked(url) == Some(Tool::Aria2) && !seqs::starts_with(text::lowercase(url), "magnet:"@)
            && !seqs::starts_with(text::lowercase(url), "ftp://"@)
            && !seqs::ends_with(text::lowercase(url), ".torrent"@)
            ==> exists|i: int| 0 <= i < FILE_EXTS
                && seqs::ends_with(seqs::before_any(text::lowercase(url), seq!['?', '#']), #[trigger] file_ext(i)),
{
}

} // verus!
