//! yt-dlp: which urls are playlists, the dates it reads, how a listing is read
//! back, and the command lines it is run with.
use vstd::prelude::*;

use crate::download::Overrides;
use crate::seqs;
use crate::text;
use crate::utils::{is_listed, push_str, strings};

verus! {

/// The yt-dlp backend.
pub struct YtDlp;

/// A url yt-dlp would treat as a playlist, channel or mix.
pub open spec fn playlist_url(url: Seq<char>) -> bool {
    let u = text::lowercase(url);
    ||| seqs::contains(u, "list="@)
    ||| seqs::contains(u, "/playlist"@)
    ||| seqs::contains(u, "/channel/"@)
    ||| seqs::contains(u, "/@"@)
    ||| seqs::ends_with(u, "/videos"@)
}

/// A url yt-dlp would treat as a playlist, channel or mix.
pub fn is_playlist(url: &str) -> (r: bool)
    ensures
        r == playlist_url(url@),
{
    let u = text::lower(text::chars_of(url).as_slice());
    let u = u.as_slice();
    text::contains(u, text::chars_of("list=").as_slice())
        || text::contains(u, text::chars_of("/playlist").as_slice())
        || text::contains(u, text::chars_of("/channel/").as_slice())
        || text::contains(u, text::chars_of("/@").as_slice())
        || text::ends_with(u, text::chars_of("/videos").as_slice())
}

/// Expand a playlist into its entries rather than downloading it as one job,
/// unless the saved yt-dlp flags ask for single videos.
pub fn expands_playlist(url: &str, saved: &[String]) -> (r: bool)
    ensures
        r == (playlist_url(url@) && !strings(saved@).contains("--no-playlist"@)),
{
    is_playlist(url) && !is_listed(saved, "--no-playlist")
}

// ---------------------------------------------------------------------------
// Dates
// ---------------------------------------------------------------------------

/// What people put between the parts of a date.
pub open spec fn date_sep(c: char) -> bool {
    c == '-' || c == '/'
}

/// The text without its date separators.
pub open spec fn without_seps(s: Seq<char>) -> Seq<char>
    decreases s.len(),
{
    if s.len() == 0 {
        s
    } else if date_sep(s.last()) {
        without_seps(s.drop_last())
    } else {
        without_seps(s.drop_last()).push(s.last())
    }
}

/// Made of digits and date separators only.
pub open spec fn date_like(s: Seq<char>) -> bool {
    forall|i: int| 0 <= i < s.len() ==> seqs::is_digit(#[trigger] s[i]) || date_sep(s[i])
}

/// A date as yt-dlp reads it: `2020-01-01` and `2020/01/01` lose their
/// separators; anything else, such as `now-6months`, passes through.
pub open spec fn date_of(text: Seq<char>) -> Seq<char> {
    let t = seqs::trim(text);
    if date_like(t) {
        without_seps(t)
    } else {
        t
    }
}

/// `2020-01-01` is what people type; `20200101` is what yt-dlp reads. Its own
/// relative forms contain `-` too, so only a plain date is stripped.
pub fn date(text: &str) -> (r: String)
    ensures
        r@ == date_of(text@),
{
    let t = text::trim(text::chars_of(text).as_slice());
    let mut plain = true;
    let mut out: Vec<char> = Vec::new();
    let mut i: usize = 0;
    proof {
        assert(t@.take(0) =~= Seq::<char>::empty());
    }
    while i < t.len()
        invariant
            i <= t@.len(),
            out@ == without_seps(t@.take(i as int)),
            plain == date_like(t@.take(i as int)),
        decreases t@.len() - i,
    {
        let c = t[i];
        proof {
            assert(t@.take(i + 1).drop_last() =~= t@.take(i as int));
            assert(t@.take(i + 1).last() == c);
        }
        if !(('0' <= c && c <= '9') || c == '-' || c == '/') {
            proof {
                assert(t@.take(i + 1)[i as int] == c);
            }
            plain = false;
        } else {
            proof {
                if plain {
                    assert forall|j: int| 0 <= j < i + 1 implies seqs::is_digit(
                        #[trigger] t@.take(i + 1)[j],
                    ) || date_sep(t@.take(i + 1)[j]) by {
                        if j < i {
                            assert(t@.take(i + 1)[j] == t@.take(i as int)[j]);
                        }
                    }
                } else {
                    let j = choose|j: int|
                        0 <= j < i && !(seqs::is_digit(#[trigger] t@.take(i as int)[j]) || date_sep(
                            t@.take(i as int)[j],
                        ));
                    assert(t@.take(i + 1)[j] == t@.take(i as int)[j]);
                }
            }
        }
        if !(c == '-' || c == '/') {
            out.push(c);
        }
        i += 1;
    }
    proof {
        assert(t@.take(t@.len() as int) =~= t@);
    }
    if plain {
        text::string_of(out.as_slice())
    } else {
        text::string_of(t.as_slice())
    }
}

/// Eight digits: a date that compares as text.
pub open spec fn plain_date(s: Seq<char>) -> bool {
    s.len() == 8 && seqs::all_digits(s)
}

/// `YYYYMMDD` exactly, the only form two dates can be compared in here.
pub fn is_plain_date(text: &str) -> (r: bool)
    ensures
        r == plain_date(text@),
{
    let t = text::chars_of(text);
    if t.len() != 8 {
        return false;
    }
    let mut i: usize = 0;
    while i < 8
        invariant
            i <= 8,
            t@.len() == 8,
            t@ == text@,
            forall|j: int| 0 <= j < i ==> seqs::is_digit(#[trigger] t@[j]),
        decreases 8 - i,
    {
        if !('0' <= t[i] && t[i] <= '9') {
            proof {
                assert(!seqs::is_digit(t@[i as int]));
            }
            return false;
        }
        i += 1;
    }
    true
}

/// An upload-date window, as yt-dlp spells one. Either end may be empty,
/// which leaves that side open.
#[derive(Debug, Clone, Default, PartialEq)]
pub struct DateRange {
    pub after: String,
    pub before: String,
}

/// The two ends of a typed range: `<from>..<to>`, either side optional.
pub open spec fn range_ends(text: Seq<char>) -> (Seq<char>, Seq<char>) {
    let t = seqs::trim(text);
    match seqs::split_once(t, ".."@) {
        Some((a, b)) => (date_of(a), date_of(b)),
        None => (date_of(t), date_of(seq![])),
    }
}

impl DateRange {
    /// Neither end is set.
    pub open spec fn open_spec(&self) -> bool {
        self.after@.len() == 0 && self.before@.len() == 0
    }

    /// `<from>..<to>`, either side optional. Dates are passed to yt-dlp as
    /// typed once the separators are gone, so its own shorthand (`today`,
    /// `now-6months`, `20200101`) works as well as `2020-01-01`.
    pub fn parse(text: &str) -> (r: DateRange)
        ensures
            (r.after@, r.before@) == range_ends(text@),
    {
        let t = text::trim(text::chars_of(text).as_slice());
        let t = text::string_of(t.as_slice());
        match text::split_once(text::chars_of(t.as_str()).as_slice(), text::chars_of("..").as_slice()) {
            Some((a, b)) => DateRange {
                after: date(text::string_of(a.as_slice()).as_str()),
                before: date(text::string_of(b.as_slice()).as_str()),
            },
            None => {
                proof {
                    reveal_strlit("");
                }
                DateRange { after: date(t.as_str()), before: date("") }
            },
        }
    }

    /// Neither end is set.
    pub fn is_empty(&self) -> (r: bool)
        ensures
            r == self.open_spec(),
    {
        self.after.as_str().is_empty() && self.before.as_str().is_empty()
    }

    /// The range as it goes back into the field it was typed in.
    pub fn typed(&self) -> (r: String)
        ensures
            r@ == if self.open_spec() {
                Seq::<char>::empty()
            } else {
                self.after@ + ".."@ + self.before@
            },
    {
        if self.is_empty() {
            String::new()
        } else {
            let mut v = text::chars_of(self.after.as_str());
            text::push_all(&mut v, text::chars_of("..").as_slice());
            text::push_all(&mut v, text::chars_of(self.before.as_str()).as_slice());
            text::string_of(v.as_slice())
        }
    }
}

// ---------------------------------------------------------------------------
// Listings
// ---------------------------------------------------------------------------

/// One listed entry: the page to download, its upload date when the listing
/// knew one (`YYYYMMDD`, or empty), and its title (possibly empty).
#[derive(Debug, Clone, Default, PartialEq)]
pub struct Entry {
    pub url: String,
    pub date: String,
    pub title: String,
}

/// A playlist listed but not yet queued, with everything needed to list it
/// again under a different date range.
#[derive(Debug, Clone, Default, PartialEq)]
pub struct Listing {
    pub url: String,
    pub queue: usize,
    pub over: Overrides,
    pub dates: DateRange,
    /// In playlist order.
    pub entries: Vec<Entry>,
}

/// `s` split at the first `sep`, or all of it and nothing.
pub open spec fn cut(s: Seq<char>, sep: Seq<char>) -> (Seq<char>, Seq<char>) {
    match seqs::split_once(s, sep) {
        Some(parts) => parts,
        None => (s, seq![]),
    }
}

/// A listed date: yt-dlp prints `NA` for what it has no value for.
pub open spec fn listed_date(d: Seq<char>) -> Seq<char> {
    if seqs::trim(d) == "NA"@ {
        seq![]
    } else {
        seqs::trim(d)
    }
}

/// One listed line, `<url>\t<date>\t<title>`, as its three parts; lines that
/// are not a url are yt-dlp talking about itself.
pub open spec fn entry_of(line: Seq<char>) -> Option<(Seq<char>, Seq<char>, Seq<char>)> {
    if !seqs::starts_with(line, "http"@) {
        None
    } else {
        let (url, rest) = cut(line, seq!['\t']);
        let (date, title) = cut(rest, seq!['\t']);
        Some((seqs::trim(url), listed_date(date), seqs::trim(title)))
    }
}

fn cut_at_tab(s: &[char]) -> (r: (Vec<char>, Vec<char>))
    ensures
        (r.0@, r.1@) == cut(s@, seq!['\t']),
{
    let tab = text::one('\t');
    proof {
        assert(tab@ =~= seq!['\t']);
    }
    match text::split_once(s, tab.as_slice()) {
        Some(parts) => parts,
        None => (text::slice_of(s, 0, s.len()), Vec::new()),
    }
}

/// One listed line as an entry; the date and title are whatever yt-dlp knew,
/// and may be missing on an old version or a private entry.
pub fn entry(line: &str) -> (r: Option<Entry>)
    ensures
        match entry_of(line@) {
            Some((u, d, t)) => r matches Some(e) && e.url@ == u && e.date@ == d && e.title@ == t,
            None => r is None,
        },
{
    let l = text::chars_of(line);
    if !text::starts_with(l.as_slice(), text::chars_of("http").as_slice()) {
        return None;
    }
    let (url, rest) = cut_at_tab(l.as_slice());
    let (date, title) = cut_at_tab(rest.as_slice());
    let date = text::trim(date.as_slice());
    let date = if text::same(date.as_slice(), text::chars_of("NA").as_slice()) {
        Vec::new()
    } else {
        date
    };
    Some(
        Entry {
            url: text::string_of(text::trim(url.as_slice()).as_slice()),
            date: text::string_of(date.as_slice()),
            title: text::string_of(text::trim(title.as_slice()).as_slice()),
        },
    )
}

/// The listing of one playlist, a single request: `approximate_date` is what
/// puts upload dates in a flat listing at all.
pub open spec fn list_args_of(url: Seq<char>) -> Seq<Seq<char>> {
    seq![
        "--ignore-errors"@,
        "--flat-playlist"@,
        "--extractor-args"@,
        "youtubetab:approximate_date"@,
        "--print"@,
        "%(url)s\t%(upload_date)s\t%(title)s"@,
        url,
    ]
}

/// The exact listing: every entry opened for its real upload date, the range
/// handed to yt-dlp, and the page rather than the media stream printed.
pub open spec fn dated_list_args_of(urls: Seq<Seq<char>>, after: Seq<char>, before: Seq<char>) -> Seq<
    Seq<char>,
> {
    seq!["--ignore-errors"@, "--print"@, "%(webpage_url)s\t%(upload_date)s\t%(title)s"@] + (if after.len()
        > 0 {
        seq!["--dateafter"@, after]
    } else {
        seq![]
    }) + (if before.len() > 0 {
        seq!["--datebefore"@, before]
    } else {
        seq![]
    }) + urls
}

/// The arguments that list a playlist's entries, one `<url>\t<date>\t<title>`
/// per line, without touching the media itself.
pub fn list_command(url: &str) -> (r: Vec<String>)
    ensures
        strings(r@) == list_args_of(url@),
{
    let mut a: Vec<String> = Vec::new();
    push_str(&mut a, "--ignore-errors");
    push_str(&mut a, "--flat-playlist");
    push_str(&mut a, "--extractor-args");
    push_str(&mut a, "youtubetab:approximate_date");
    push_str(&mut a, "--print");
    push_str(&mut a, "%(url)s\t%(upload_date)s\t%(title)s");
    push_str(&mut a, url);
    proof {
        assert(strings(a@) =~= list_args_of(url@));
    }
    a
}

/// The arguments that list exactly the entries uploaded in `dates`, for
/// every url in one invocation.
pub fn dated_list_command(urls: &[String], dates: &DateRange) -> (r: Vec<String>)
    ensures
        strings(r@) == dated_list_args_of(strings(urls@), dates.after@, dates.before@),
{
    let mut a: Vec<String> = Vec::new();
    push_str(&mut a, "--ignore-errors");
    push_str(&mut a, "--print");
    push_str(&mut a, "%(webpage_url)s\t%(upload_date)s\t%(title)s");
    let ghost head = strings(a@);
    if !dates.after.as_str().is_empty() {
        push_str(&mut a, "--dateafter");
        push_str(&mut a, dates.after.as_str());
    }
    let ghost mid = strings(a@);
    if !dates.before.as_str().is_empty() {
        push_str(&mut a, "--datebefore");
        push_str(&mut a, dates.before.as_str());
    }
    let ghost fixed = strings(a@);
    let mut i: usize = 0;
    while i < urls.len()
        invariant
            i <= urls@.len(),
            strings(a@) == fixed + strings(urls@).take(i as int),
        decreases urls@.len() - i,
    {
        push_str(&mut a, urls[i].as_str());
        proof {
            assert(strings(urls@).take(i + 1) =~= strings(urls@).take(i as int).push(urls@[i as int]@));
        }
        i += 1;
    }
    proof {
        assert(strings(urls@).take(urls@.len() as int) =~= strings(urls@));
        assert(fixed =~= dated_list_args_of(seq![], dates.after@, dates.before@));
        assert(strings(a@) =~= dated_list_args_of(strings(urls@), dates.after@, dates.before@));
    }
    a
}

// ---------------------------------------------------------------------------
// The backend
// ---------------------------------------------------------------------------

/// A text with `\` and `"` escaped, as a quoted config value needs.
pub open spec fn escaped(s: Seq<char>) -> Seq<char>
    decreases s.len(),
{
    if s.len() == 0 {
        s
    } else if s.last() == '\\' || s.last() == '"' {
        escaped(s.drop_last()) + seq!['\\', s.last()]
    } else {
        escaped(s.drop_last()).push(s.last())
    }
}

/// Only what would end the quoted string or escape the next character.
fn escape(s: &[char]) -> (r: Vec<char>)
    ensures
        r@ == escaped(s@),
{
    let mut r: Vec<char> = Vec::new();
    let mut i: usize = 0;
    proof {
        assert(s@.take(0) =~= Seq::<char>::empty());
    }
    while i < s.len()
        invariant
            i <= s@.len(),
            r@ == escaped(s@.take(i as int)),
        decreases s@.len() - i,
    {
        let c = s[i];
        proof {
            assert(s@.take(i + 1).drop_last() =~= s@.take(i as int));
            assert(s@.take(i + 1).last() == c);
        }
        if c == '\\' || c == '"' {
            r.push('\\');
            r.push(c);
            proof {
                assert(r@ =~= escaped(s@.take(i as int)) + seq!['\\', c]);
            }
        } else {
            r.push(c);
        }
        i += 1;
    }
    proof {
        assert(s@.take(s@.len() as int) =~= s@);
    }
    r
}

/// A yt-dlp config file holding a login: command-line flags, quoted.
pub open spec fn ytdlp_login(user: Seq<char>, pass: Seq<char>) -> Seq<char> {
    "-u \""@ + escaped(user) + "\"\n-p \""@ + escaped(pass) + "\"\n"@
}

/// `exit <code>`, for an exit code nobody documented.
pub open spec fn exit_text(code: int) -> Seq<char> {
    "exit "@ + seqs::padded(code, 0)
}

/// `exit <code>`.
pub fn exit_of(code: i32) -> (r: String)
    ensures
        r@ == exit_text(code as int),
{
    let mut v = text::chars_of("exit ");
    text::push_all(&mut v, text::padded(code as i64, 0).as_slice());
    text::string_of(v.as_slice())
}

/// The directory a download lands in: its own, or the configured one.
pub open spec fn target_dir(dir: Seq<char>, over: Overrides) -> Seq<char> {
    if over.dir@.len() == 0 {
        dir
    } else {
        over.dir@
    }
}

/// The flags yt-dlp is run with for one download: progress on its own
/// lines, then the configured flags, then this item's own settings so they
/// beat the configured ones, then the url.
pub open spec fn ytdlp_args_of(url: Seq<char>, dir: Seq<char>, over: Overrides, saved: Seq<Seq<char>>) -> Seq<
    Seq<char>,
> {
    seq!["--newline"@, "--no-color"@, "--continue"@, "-P"@, target_dir(dir, over)] + saved + (if over.name@.len()
        > 0 {
        seq!["-o"@, over.name@]
    } else {
        seq![]
    }) + (if over.rate@.len() > 0 {
        seq!["-r"@, over.rate@]
    } else {
        seq![]
    }) + seq![url]
}

/// Appends every string of `more`.
pub fn push_strings(v: &mut Vec<String>, more: &[String])
    ensures
        strings(final(v)@) == strings(old(v)@) + strings(more@),
{
    let mut i: usize = 0;
    while i < more.len()
        invariant
            i <= more@.len(),
            strings(v@) == strings(old(v)@) + strings(more@).take(i as int),
        decreases more@.len() - i,
    {
        push_str(v, more[i].as_str());
        proof {
            assert(strings(more@).take(i + 1) =~= strings(more@).take(i as int).push(more@[i as int]@));
        }
        i += 1;
    }
    proof {
        assert(strings(more@).take(more@.len() as int) =~= strings(more@));
    }
}

impl YtDlp {
    pub fn name(&self) -> (r: &'static str)
        ensures
            r@ == "yt-dlp"@,
    {
        "yt-dlp"
    }

    /// The fallback for every remaining http(s) url; aria2c is asked first.
    pub fn accepts(&self, url: &str) -> (r: bool)
        ensures
            r == (seqs::starts_with(url@, "http://"@) || seqs::starts_with(url@, "https://"@)),
    {
        let u = text::chars_of(url);
        text::starts_with(u.as_slice(), text::chars_of("http://").as_slice())
            || text::starts_with(u.as_slice(), text::chars_of("https://").as_slice())
    }

    /// The flag yt-dlp reads a config file with.
    pub fn config_flag(&self) -> (r: &'static str)
        ensures
            r@ == "--config-location"@,
    {
        "--config-location"
    }

    /// A yt-dlp config file holds command-line flags; quotes keep a password
    /// with spaces or `#` intact.
    pub fn credentials(&self, user: &str, pass: &str) -> (r: String)
        ensures
            r@ == ytdlp_login(user@, pass@),
    {
        let mut v = text::chars_of("-u \"");
        text::push_all(&mut v, escape(text::chars_of(user).as_slice()).as_slice());
        text::push_all(&mut v, text::chars_of("\"\n-p \"").as_slice());
        text::push_all(&mut v, escape(text::chars_of(pass).as_slice()).as_slice());
        text::push_all(&mut v, text::chars_of("\"\n").as_slice());
        proof {
            assert(v@ =~= ytdlp_login(user@, pass@));
        }
        text::string_of(v.as_slice())
    }

    /// yt-dlp documents no exit codes, so each one is just its number.
    pub fn reason(&self, code: i32) -> (r: String)
        ensures
            r@ == exit_text(code as int),
    {
        exit_of(code)
    }

    /// The arguments for one download; `saved` are the flags from the
    /// backend's own file.
    pub fn command(&self, url: &str, dir: &str, over: &Overrides, saved: &[String]) -> (r: Vec<String>)
        ensures
            strings(r@) == ytdlp_args_of(url@, dir@, *over, strings(saved@)),
    {
        let mut a: Vec<String> = Vec::new();
        push_str(&mut a, "--newline");
        push_str(&mut a, "--no-color");
        push_str(&mut a, "--continue");
        push_str(&mut a, "-P");
        if over.dir.as_str().is_empty() {
            push_str(&mut a, dir);
        } else {
            push_str(&mut a, over.dir.as_str());
        }
        push_strings(&mut a, saved);
        let ghost head = strings(a@);
        if !over.name.as_str().is_empty() {
            push_str(&mut a, "-o");
            push_str(&mut a, over.name.as_str());
        }
        let ghost named = strings(a@);
        if !over.rate.as_str().is_empty() {
            push_str(&mut a, "-r");
            push_str(&mut a, over.rate.as_str());
        }
        push_str(&mut a, url);
        proof {
            assert(strings(a@) =~= ytdlp_args_of(url@, dir@, *over, strings(saved@)));
        }
        a
    }
}

} // verus!
