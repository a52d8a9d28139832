//! A crawl as the form describes it, and the filters that decide which of the
//! urls wget turns up are worth downloading and where each one is saved.
use vstd::prelude::*;

use crate::parse;
use crate::seqs;
use crate::text;
use crate::rule::{listed_of, nonempty};
use crate::utils::{push_joined, push_str, strings};

verus! {

/// A crawl as the form describes it. wget does the crawling; the filters
/// below decide which of what it finds is worth downloading.
#[derive(Debug, Clone, PartialEq)]
pub struct Crawl {
    pub url: String,
    /// How many links deep to follow. `0` is the page itself.
    pub depth: u8,
    /// Extensions to keep, without dots. Empty keeps every type.
    pub exts: Vec<String>,
    /// Url patterns to keep and to drop; `*` is a wildcard, anything else is
    /// matched as a substring. Excludes win over includes.
    pub includes: Vec<String>,
    pub excludes: Vec<String>,
    /// Sizes in whole bytes.
    pub min_size: Option<u64>,
    pub max_size: Option<u64>,
    /// Stay on the page's own host.
    pub same_domain: bool,
    /// Stay below the start url's own path as well.
    pub under_path: bool,
    /// Drop the url's directories and save everything side by side.
    pub flat: bool,
    /// Ignore robots.txt and nofollow.
    pub ignore_robots: bool,
    /// Mirror the site for offline reading instead of listing files.
    pub offline: bool,
}

/// One url the crawl turned up, with the size the server reported for it.
#[derive(Debug, Clone, PartialEq)]
pub struct Found {
    pub url: String,
    pub size: Option<u64>,
}

/// What a url pattern makes of a url once both are lowercase: wildcards at
/// `*`, anchored at the front and the back unless a `*` stands there.
pub open spec fn wild_from(parts: Seq<Seq<char>>, i: nat, text: Seq<char>, at: nat) -> bool
    decreases parts.len() - i,
{
    if i >= parts.len() {
        true
    } else if parts[i as int].len() == 0 {
        wild_from(parts, i + 1, text, at)
    } else {
        match seqs::find(text.skip(at as int), parts[i as int]) {
            None => false,
            Some(f) => if i == 0 && f != 0 {
                false
            } else {
                wild_from(parts, i + 1, text, at + f + parts[i as int].len())
            },
        }
    }
}

/// `*` matches any run of characters; a pattern without one is a plain
/// substring. The pattern is lowercased, the text taken as it is.
pub open spec fn wild_matches(pattern: Seq<char>, text: Seq<char>) -> bool {
    let p = text::lowercase(pattern);
    if !seqs::contains(p, seq!['*']) {
        seqs::contains(text, p)
    } else {
        let parts = seqs::split(p, '*');
        wild_from(parts, 0, text, 0) && (parts.len() == 0 || parts.last().len() == 0
            || seqs::ends_with(text, parts.last()))
    }
}

/// A url without its scheme.
pub open spec fn after_scheme(url: Seq<char>) -> Seq<char> {
    match seqs::split_once(url, "://"@) {
        Some((_, rest)) => rest,
        None => url,
    }
}

/// The host part of a url before lowercasing: no credentials, no port.
pub open spec fn raw_host(url: Seq<char>) -> Seq<char> {
    let authority = seqs::before_any(after_scheme(url), seq!['/', '?', '#']);
    let authority = match seqs::rfind_any(authority, seq!['@']) {
        Some(i) => authority.skip(i + 1 as int),
        None => authority,
    };
    seqs::before_any(authority, seq![':'])
}

/// The host of a url, lowercased and without credentials or port.
pub open spec fn host_of(url: Seq<char>) -> Option<Seq<char>> {
    let h = raw_host(url);
    if h.len() > 0 {
        Some(text::lowercase(h))
    } else {
        None
    }
}

/// The path after the host, without its fragment.
pub open spec fn path_of(url: Seq<char>) -> Seq<char> {
    let rest = after_scheme(url);
    match seqs::find_any(rest, seq!['/']) {
        Some(at) => seqs::before_any(rest.skip(at + 1 as int), seq!['#']),
        None => seq![],
    }
}

/// A character no file name may hold on any of the three platforms.
pub open spec fn unsafe_char(c: char) -> bool {
    c == '/' || c == '\\' || c == ':' || c == '*' || c == '?' || c == '"' || c == '<' || c == '>'
        || c == '|' || (c as u32) < 0x20
}

/// A part of a url as a file name: unsafe characters as `_`, no spaces or
/// dots at either end, never empty, at most 120 characters.
pub open spec fn safe_name(part: Seq<char>) -> Seq<char> {
    let mapped = part.map_values(|c: char| if unsafe_char(c) { '_' } else { c });
    let cleaned = seqs::strip(mapped, seq![' ', '.']);
    if cleaned.len() == 0 {
        seq!['_']
    } else if cleaned.len() > 120 {
        cleaned.take(120)
    } else {
        cleaned
    }
}

/// The directories of a path: everything before its last `/`.
pub open spec fn dirs_of(path: Seq<char>) -> Seq<char> {
    match seqs::rfind_any(path, seq!['/']) {
        Some(i) => path.take(i as int),
        None => seq![],
    }
}

/// The directory parts a local copy keeps: no empty ones, no `..`.
pub open spec fn kept_dirs(parts: Seq<Seq<char>>) -> Seq<char>
    decreases parts.len(),
{
    if parts.len() == 0 {
        seq![]
    } else {
        let before = kept_dirs(parts.drop_last());
        let p = parts.last();
        if p.len() == 0 || p == ".."@ {
            before
        } else {
            before + seq!['/'] + safe_name(p)
        }
    }
}

/// Where a discovered url is saved under the download directory.
pub open spec fn local_dir_of(url: Seq<char>, flat: bool) -> Seq<char> {
    if flat {
        seq![]
    } else {
        match host_of(url) {
            None => seq![],
            Some(h) => safe_name(h) + kept_dirs(seqs::split(dirs_of(path_of(url)), '/')),
        }
    }
}

/// The last segment of a path.
pub open spec fn last_segment(path: Seq<char>) -> Seq<char> {
    match seqs::rfind_any(path, seq!['/']) {
        Some(i) => path.skip(i + 1 as int),
        None => path,
    }
}

/// The file name for a url: its last segment made safe, `index.html` for a
/// directory, and a query folded in before the extension.
pub open spec fn local_name_of(url: Seq<char>) -> Seq<char> {
    let path = path_of(url);
    let (path, query) = match seqs::split_once(path, seq!['?']) {
        Some((p, q)) => (p, q),
        None => (path, seq![]),
    };
    let seg = last_segment(path);
    let name = if seg.len() == 0 { "index.html"@ } else { safe_name(seg) };
    if query.len() == 0 {
        name
    } else {
        let (stem, ext) = match seqs::rfind_any(name, seq!['.']) {
            Some(i) => (name.take(i as int), name.skip(i + 1 as int)),
            None => (name, seq![]),
        };
        if ext.len() == 0 {
            stem + seq!['@'] + safe_name(query)
        } else {
            stem + seq!['@'] + safe_name(query) + seq!['.'] + ext
        }
    }
}


/// `*` matches any run of characters; a pattern without one is a plain
/// substring, which is what a typed filter usually means.
pub fn wild(pattern: &str, text: &str) -> (r: bool)
    ensures
        r == wild_matches(pattern@, text@),
{
    let p = text::lower(text::chars_of(pattern).as_slice());
    let t = text::chars_of(text);
    let star = text::one('*');
    if !text::contains(p.as_slice(), star.as_slice()) {
        return text::contains(t.as_slice(), p.as_slice());
    }
    let parts = text::split(p.as_slice(), '*');
    let ghost ps = seqs::views(parts@);
    let mut at: usize = 0;
    let mut i: usize = 0;
    while i < parts.len()
        invariant
            i <= parts@.len(),
            ps == seqs::views(parts@),
            ps == seqs::split(p@, '*'),
            p@ == text::lowercase(pattern@),
            seqs::contains(p@, seq!['*']),
            t@ == text@,
            at <= t@.len(),
            wild_from(ps, 0, t@, 0) == wild_from(ps, i as nat, t@, at as nat),
        decreases parts@.len() - i,
    {
        proof {
            assert(ps[i as int] == parts@[i as int]@);
        }
        if parts[i].len() > 0 {
            let rest = text::slice_of(t.as_slice(), at, t.len());
            proof {
                assert(rest@ =~= t@.skip(at as int));
                seqs::lemma_find(rest@, parts@[i as int]@, 0);
            }
            match text::find(rest.as_slice(), parts[i].as_slice()) {
                None => {
                    proof {
                        assert(wild_from(ps, i as nat, t@, at as nat) == false);
                    }
                    return false;
                },
                Some(f) => {
                    if i == 0 && f != 0 {
                        proof {
                            assert(wild_from(ps, i as nat, t@, at as nat) == false);
                        }
                        return false;
                    }
                    at = at + f + parts[i].len();
                },
            }
        }
        i += 1;
    }
    proof {
        assert(wild_from(ps, i as nat, t@, at as nat));
    }
    if parts.len() == 0 {
        return true;
    }
    let last = parts.len() - 1;
    proof {
        assert(ps.last() == parts@[last as int]@);
    }
    parts[last].len() == 0 || text::ends_with(t.as_slice(), parts[last].as_slice())
}

fn strip_scheme(url: &[char]) -> (r: Vec<char>)
    ensures
        r@ == after_scheme(url@),
{
    match text::split_once(url, text::chars_of("://").as_slice()) {
        Some((_, rest)) => rest,
        None => text::slice_of(url, 0, url.len()),
    }
}

fn host_part(url: &[char]) -> (r: Vec<char>)
    ensures
        r@ == raw_host(url@),
{
    let rest = strip_scheme(url);
    let stops = ['/', '?', '#'];
    proof {
        assert(stops@ =~= seq!['/', '?', '#']);
    }
    let authority = text::before_any(rest.as_slice(), &stops);
    let at_sign = text::one('@');
    proof {
        seqs::lemma_rfind_any(authority@, seq!['@'], authority@.len() as int);
    }
    let authority = match text::rfind_any(authority.as_slice(), at_sign.as_slice()) {
        Some(i) => text::slice_of(authority.as_slice(), i + 1, authority.len()),
        None => authority,
    };
    text::before_any(authority.as_slice(), text::one(':').as_slice())
}

/// The host of a url, lowercased and without credentials or port.
pub fn host(url: &str) -> (r: Option<String>)
    ensures
        match host_of(url@) {
            Some(h) => r matches Some(x) && x@ == h,
            None => r is None,
        },
{
    let h = host_part(text::chars_of(url).as_slice());
    if h.len() > 0 {
        Some(text::string_of(text::lower(h.as_slice()).as_slice()))
    } else {
        None
    }
}

fn after_host(url: &[char]) -> (r: Vec<char>)
    ensures
        r@ == path_of(url@),
{
    let rest = strip_scheme(url);
    proof {
        seqs::lemma_find_any(rest@, seq!['/'], 0);
    }
    let n = rest.len();
    match text::find_any(rest.as_slice(), text::one('/').as_slice()) {
        Some(at) => {
            let tail = text::slice_of(rest.as_slice(), at + 1, n);
            proof {
                assert(tail@ =~= rest@.skip(at + 1 as int));
            }
            text::before_any(tail.as_slice(), text::one('#').as_slice())
        },
        None => Vec::new(),
    }
}

fn safe(part: &[char]) -> (r: Vec<char>)
    ensures
        r@ == safe_name(part@),
{
    let mut mapped: Vec<char> = Vec::new();
    let mut i: usize = 0;
    while i < part.len()
        invariant
            i <= part@.len(),
            mapped@ =~= part@.take(i as int).map_values(|c: char| if unsafe_char(c) { '_' } else { c }),
        decreases part@.len() - i,
    {
        let c = part[i];
        let bad = c == '/' || c == '\\' || c == ':' || c == '*' || c == '?' || c == '"' || c == '<'
            || c == '>' || c == '|' || (c as u32) < 0x20;
        mapped.push(if bad { '_' } else { c });
        proof {
            assert(part@.take(i + 1 as int) =~= part@.take(i as int).push(c));
        }
        i += 1;
    }
    proof {
        assert(part@.take(part@.len() as int) =~= part@);
    }
    let cleaned = text::strip(mapped.as_slice(), text::two(' ', '.').as_slice());
    if cleaned.len() == 0 {
        text::one('_')
    } else if cleaned.len() > 120 {
        text::slice_of(cleaned.as_slice(), 0, 120)
    } else {
        cleaned
    }
}

/// Urls the crawler fetches to do its job rather than because they were
/// linked. Nobody asked for the robots file.
pub fn is_plumbing(url: &str) -> (r: bool)
    ensures
        r == seqs::ends_with(url@, "/robots.txt"@),
{
    text::ends_with(text::chars_of(url).as_slice(), text::chars_of("/robots.txt").as_slice())
}

/// Where a discovered url is saved under the download directory, so the local
/// copy mirrors the site: `https://x.com/docs/a/b.pdf` → `x.com/docs/a`.
/// Flat mode returns nothing and everything lands side by side.
pub fn local_dir(url: &str, flat: bool) -> (r: String)
    ensures
        r@ == local_dir_of(url@, flat),
{
    if flat {
        return String::new();
    }
    let u = text::chars_of(url);
    let h = host_part(u.as_slice());
    if h.len() == 0 {
        return String::new();
    }
    let h = text::lower(h.as_slice());
    let path = after_host(u.as_slice());
    proof {
        seqs::lemma_rfind_any(path@, seq!['/'], path@.len() as int);
    }
    let dirs = match text::rfind_any(path.as_slice(), text::one('/').as_slice()) {
        Some(i) => text::slice_of(path.as_slice(), 0, i),
        None => Vec::new(),
    };
    proof {
        assert(dirs@ =~= dirs_of(path@));
    }
    let parts = text::split(dirs.as_slice(), '/');
    let mut out = safe(h.as_slice());
    let ghost start = out@;
    let dots = text::chars_of("..");
    let mut i: usize = 0;
    proof {
        assert(seqs::views(parts@).take(0) =~= Seq::<Seq<char>>::empty());
        assert(start + kept_dirs(Seq::<Seq<char>>::empty()) =~= start);
    }
    while i < parts.len()
        invariant
            i <= parts@.len(),
            dots@ == ".."@,
            out@ == start + kept_dirs(seqs::views(parts@).take(i as int)),
        decreases parts@.len() - i,
    {
        let ghost vs = seqs::views(parts@);
        proof {
            assert(vs.take(i + 1 as int).drop_last() =~= vs.take(i as int));
            assert(vs.take(i + 1 as int).last() == parts@[i as int]@);
        }
        if parts[i].len() > 0 && !text::same(parts[i].as_slice(), dots.as_slice()) {
            let ghost before = out@;
            out.push('/');
            text::push_all(&mut out, safe(parts[i].as_slice()).as_slice());
            proof {
                assert(out@ =~= before + seq!['/'] + safe_name(parts@[i as int]@));
            }
        }
        i += 1;
    }
    proof {
        assert(seqs::views(parts@).take(parts@.len() as int) =~= seqs::views(parts@));
    }
    text::string_of(out.as_slice())
}

/// The file name for a url. A query string is folded into the name rather
/// than left to make an unopenable file, and a url ending in `/` becomes
/// `index.html`, as wget's own mirrors do.
pub fn local_name(url: &str) -> (r: String)
    ensures
        r@ == local_name_of(url@),
{
    let path = after_host(text::chars_of(url).as_slice());
    let (path, query) = match text::split_once(path.as_slice(), text::one('?').as_slice()) {
        Some((p, q)) => (p, q),
        None => (path, Vec::new()),
    };
    proof {
        seqs::lemma_rfind_any(path@, seq!['/'], path@.len() as int);
    }
    let pn = path.len();
    let seg = match text::rfind_any(path.as_slice(), text::one('/').as_slice()) {
        Some(i) => text::slice_of(path.as_slice(), i + 1, pn),
        None => text::slice_of(path.as_slice(), 0, path.len()),
    };
    proof {
        assert(seg@ =~= last_segment(path@));
    }
    let name = if seg.len() == 0 { text::chars_of("index.html") } else { safe(seg.as_slice()) };
    if query.len() == 0 {
        return text::string_of(name.as_slice());
    }
    proof {
        seqs::lemma_rfind_any(name@, seq!['.'], name@.len() as int);
    }
    let nn = name.len();
    let (stem, ext) = match text::rfind_any(name.as_slice(), text::one('.').as_slice()) {
        Some(i) => (text::slice_of(name.as_slice(), 0, i), text::slice_of(name.as_slice(), i + 1, nn)),
        None => (text::slice_of(name.as_slice(), 0, name.len()), Vec::new()),
    };
    proof {
        match seqs::rfind_any(name@, seq!['.']) {
            Some(i) => {
                assert(stem@ =~= name@.take(i as int));
                assert(ext@ =~= name@.skip(i + 1 as int));
            },
            None => {
                assert(stem@ =~= name@);
            },
        }
    }
    let mut out = stem;
    out.push('@');
    text::push_all(&mut out, safe(query.as_slice()).as_slice());
    if ext.len() > 0 {
        out.push('.');
        text::push_all(&mut out, ext.as_slice());
    }
    proof {
        assert(out@ =~= local_name_of(url@));
    }
    text::string_of(out.as_slice())
}


/// Some text among `v` ends with `.` and it.
pub open spec fn has_ext(exts: Seq<Seq<char>>, path: Seq<char>) -> bool {
    exists|i: int| 0 <= i < exts.len() && seqs::ends_with(path, seq!['.'] + #[trigger] exts[i])
}

/// Some pattern among `v` matches the url.
pub open spec fn any_wild(patterns: Seq<Seq<char>>, url: Seq<char>) -> bool {
    exists|i: int| 0 <= i < patterns.len() && wild_matches(#[trigger] patterns[i], url)
}

/// Does a found url survive the crawl's filters? Extension, excludes,
/// includes, host, and size when the server reported one.
pub open spec fn keeps(c: &Crawl, url: Seq<char>, size: Option<u64>) -> bool {
    let lower = text::lowercase(url);
    let path = seqs::before_any(lower, seq!['?', '#']);
    &&& (c.exts@.len() == 0 || has_ext(strings(c.exts@), path))
    &&& !any_wild(strings(c.excludes@), lower)
    &&& (c.includes@.len() == 0 || any_wild(strings(c.includes@), lower))
    &&& (!c.same_domain || host_of(c.url@) == host_of(url))
    &&& match size {
        None => true,
        Some(s) => (c.min_size matches Some(min) ==> s >= min) && (c.max_size matches Some(max) ==> s <= max),
    }
}

fn matches_any(patterns: &Vec<String>, url: &Vec<char>) -> (r: bool)
    ensures
        r == any_wild(strings(patterns@), url@),
{
    let u = text::string_of(url.as_slice());
    let mut i: usize = 0;
    while i < patterns.len()
        invariant
            i <= patterns@.len(),
            u@ == url@,
            forall|k: int| 0 <= k < i ==> !wild_matches(#[trigger] strings(patterns@)[k], url@),
        decreases patterns@.len() - i,
    {
        if wild(patterns[i].as_str(), u.as_str()) {
            proof {
                assert(wild_matches(strings(patterns@)[i as int], url@));
            }
            return true;
        }
        i += 1;
    }
    false
}

impl Crawl {
    /// Does this url survive the filters? Size is only judged when the server
    /// reported one — an unknown size is not a reason to drop a file.
    pub fn keep(&self, f: &Found) -> (r: bool)
        ensures
            r == keeps(self, f.url@, f.size),
    {
        let lower = text::lower(text::chars_of(f.url.as_str()).as_slice());
        let path = text::before_any(lower.as_slice(), text::two('?', '#').as_slice());
        if self.exts.len() > 0 {
            let mut found = false;
            let mut i: usize = 0;
            while i < self.exts.len() && !found
                invariant
                    i <= self.exts@.len(),
                    found ==> has_ext(strings(self.exts@), path@),
                    !found ==> forall|k: int| 0 <= k < i ==> !seqs::ends_with(path@, seq!['.'] + #[trigger] strings(self.exts@)[k]),
                decreases self.exts@.len() - i + (if found { 0int } else { 1int }),
            {
                let mut dotted = text::one('.');
                text::push_all(&mut dotted, text::chars_of(self.exts[i].as_str()).as_slice());
                if text::ends_with(path.as_slice(), dotted.as_slice()) {
                    proof {
                        assert(dotted@ == seq!['.'] + strings(self.exts@)[i as int]);
                    }
                    found = true;
                } else {
                    proof {
                        assert(dotted@ == seq!['.'] + strings(self.exts@)[i as int]);
                    }
                    i += 1;
                }
            }
            if !found {
                return false;
            }
        }
        if matches_any(&self.excludes, &lower) {
            return false;
        }
        if self.includes.len() > 0 && !matches_any(&self.includes, &lower) {
            return false;
        }
        if self.same_domain {
            let a = host(self.url.as_str());
            let b = host(f.url.as_str());
            let same = match (&a, &b) {
                (Some(x), Some(y)) => text::same(text::chars_of(x.as_str()).as_slice(), text::chars_of(y.as_str()).as_slice()),
                (None, None) => true,
                _ => false,
            };
            if !same {
                return false;
            }
        }
        match f.size {
            None => true,
            Some(size) => {
                (match self.min_size { Some(min) => size >= min, None => true })
                    && (match self.max_size { Some(max) => size <= max, None => true })
            },
        }
    }
}


/// A found url as plain values: the url and its size.
pub open spec fn found_views(v: Seq<Found>) -> Seq<(Seq<char>, Option<u64>)> {
    v.map_values(|f: Found| (f.url@, f.size))
}

/// What one line of wget's log does to the list: a `--date--  url` line
/// adds an http url not yet listed; a `Length:` line sizes the last entry;
/// an error line drops the last entry.
pub open spec fn collected(found: Seq<(Seq<char>, Option<u64>)>, line: Seq<char>) -> Seq<(Seq<char>, Option<u64>)> {
    match seqs::split_once(line, "--  "@) {
        Some((_, url)) => {
            let url = seqs::trim(url);
            if seqs::starts_with(url, "http"@) && !(exists|i: int| 0 <= i < found.len() && (#[trigger] found[i]).0 == url) {
                found.push((url, None))
            } else {
                found
            }
        },
        None => {
            let t = seqs::trim(line);
            if seqs::starts_with(t, "Length: "@) {
                if found.len() > 0 {
                    let rest = t.skip("Length: "@.len() as int);
                    let ws = seqs::words(rest);
                    let size = if ws.len() > 0 { parse::size_of(ws[0]) } else { None };
                    found.update(found.len() - 1, (found.last().0, size))
                } else {
                    found
                }
            } else if seqs::contains(line, " ERROR "@) || seqs::contains(line, "broken link"@) {
                if found.len() > 0 { found.drop_last() } else { found }
            } else {
                found
            }
        },
    }
}

/// Read wget's log as it walks. A `--date--  url` line opens an entry and the
/// `Length:` line that follows sizes it; every url is reported once, so the
/// same file found twice is a single entry.
pub fn collect(line: &str, found: &mut Vec<Found>)
    ensures
        found_views(final(found)@) == collected(found_views(old(found)@), line@),
{
    let l = text::chars_of(line);
    let ghost before = found_views(found@);
    match text::split_once(l.as_slice(), text::chars_of("--  ").as_slice()) {
        Some((_, url)) => {
            let url = text::trim(url.as_slice());
            if text::starts_with(url.as_slice(), text::chars_of("http").as_slice()) {
                let mut seen = false;
                let mut i: usize = 0;
                while i < found.len()
                    invariant
                        i <= found@.len(),
                        before == found_views(found@),
                        seen == exists|k: int| 0 <= k < i && before[k].0 == url@,
                    decreases found@.len() - i,
                {
                    proof {
                        assert(before[i as int].0 == found@[i as int].url@);
                    }
                    if text::same(text::chars_of(found[i].url.as_str()).as_slice(), url.as_slice()) {
                        seen = true;
                    }
                    i += 1;
                }
                if !seen {
                    let f = Found { url: text::string_of(url.as_slice()), size: None };
                    found.push(f);
                    proof {
                        assert(found_views(found@) =~= before.push((url@, None)));
                    }
                }
            }
            return;
        },
        None => {},
    }
    let t = text::trim(l.as_slice());
    let prefix = text::chars_of("Length: ");
    proof {
        reveal_strlit("Length: ");
    }
    if text::starts_with(t.as_slice(), prefix.as_slice()) {
        if found.len() > 0 {
            let rest = text::slice_of(t.as_slice(), prefix.len(), t.len());
            proof {
                assert(rest@ =~= t@.skip("Length: "@.len() as int));
            }
            let ws = text::words(rest.as_slice());
            let size = if ws.len() > 0 {
                proof {
                    assert(seqs::views(ws@)[0] == ws@[0]@);
                }
                parse::bytes(text::string_of(ws[0].as_slice()).as_str())
            } else {
                None
            };
            let last = found.len() - 1;
            let url = found[last].url.clone();
            proof {
                assert(url@ == found@[last as int].url@);
            }
            found.set(last, Found { url, size });
            proof {
                assert(found_views(found@) =~= before.update(before.len() - 1, (before.last().0, size)));
            }
        }
        return;
    }
    if text::contains(l.as_slice(), text::chars_of(" ERROR ").as_slice())
        || text::contains(l.as_slice(), text::chars_of("broken link").as_slice()) {
        if found.len() > 0 {
            found.pop();
            proof {
                assert(found_views(found@) =~= before.drop_last());
            }
        }
    }
}


/// Texts joined with `sep` between them.
pub open spec fn join(parts: Seq<Seq<char>>, sep: Seq<char>) -> Seq<char>
    decreases parts.len(),
{
    if parts.len() == 0 {
        seq![]
    } else if parts.len() == 1 {
        parts[0]
    } else {
        join(parts.drop_last(), sep) + sep + parts.last()
    }
}

/// The wget flags shared by the discovery pass and the offline mirror.
pub open spec fn walk_args_of(c: &Crawl) -> Seq<Seq<char>> {
    let base = seq![
        "--recursive"@,
        "--level="@ + seqs::decimal(c.depth as nat),
        "--tries=2"@,
        "--timeout=20"@,
        "--wait=0.2"@,
    ];
    let bounds = if c.same_domain {
        let parent = if c.under_path { seq!["--no-parent"@] } else { seq![] };
        let domains = match host_of(c.url@) {
            Some(h) => seq!["--domains="@ + h],
            None => seq![],
        };
        parent + domains
    } else {
        seq!["--span-hosts"@]
    };
    let accept = if c.exts@.len() > 0 {
        seq!["--accept="@ + join(strings(c.exts@), seq![','])]
    } else {
        seq![]
    };
    let robots = if c.ignore_robots { seq!["-e"@, "robots=off"@] } else { seq![] };
    base + bounds + accept + robots
}

/// The flags of the offline mirror.
pub open spec fn mirror_args_of(c: &Crawl) -> Seq<Seq<char>> {
    walk_args_of(c) + seq![
        "--page-requisites"@,
        "--convert-links"@,
        "--backup-converted"@,
        "--adjust-extension"@,
        "--timestamping"@,
        "--no-if-modified-since"@,
        "--restrict-file-names=windows"@,
    ] + if c.flat { seq!["--no-directories"@] } else { seq![] }
}

impl Crawl {
    /// wget flags shared by the discovery pass and the offline mirror: how
    /// deep to go, and how far off the original page it may wander.
    pub fn walk_args(&self) -> (r: Vec<String>)
        ensures
            strings(r@) == walk_args_of(self),
    {
        let mut args: Vec<String> = Vec::new();
        push_str(&mut args, "--recursive");
        push_joined(&mut args, "--level=", text::decimal(self.depth as u64).as_slice());
        // Politeness, and a crawl that gives up rather than hanging.
        push_str(&mut args, "--tries=2");
        push_str(&mut args, "--timeout=20");
        push_str(&mut args, "--wait=0.2");
        let ghost base = strings(args@);
        if self.same_domain {
            if self.under_path {
                push_str(&mut args, "--no-parent");
            }
            match host(self.url.as_str()) {
                Some(h) => push_joined(&mut args, "--domains=", text::chars_of(h.as_str()).as_slice()),
                None => {},
            }
        } else {
            push_str(&mut args, "--span-hosts");
        }
        let ghost bounded = strings(args@);
        if self.exts.len() > 0 {
            let mut joined: Vec<char> = Vec::new();
            let mut i: usize = 0;
            proof {
                assert(strings(self.exts@).take(0) =~= Seq::<Seq<char>>::empty());
            }
            while i < self.exts.len()
                invariant
                    i <= self.exts@.len(),
                    joined@ == join(strings(self.exts@).take(i as int), seq![',']),
                decreases self.exts@.len() - i,
            {
                let ghost prev = joined@;
                if i > 0 {
                    joined.push(',');
                }
                text::push_all(&mut joined, text::chars_of(self.exts[i].as_str()).as_slice());
                proof {
                    let ex = strings(self.exts@);
                    assert(ex.take(i + 1 as int).drop_last() =~= ex.take(i as int));
                    assert(ex[i as int] == self.exts@[i as int]@);
                    if i > 0 {
                        assert(joined@ =~= prev + seq![','] + ex[i as int]);
                    } else {
                        assert(ex.take(1) =~= seq![ex[0]]);
                        assert(joined@ =~= ex[0]);
                    }
                }
                i += 1;
            }
            proof {
                assert(strings(self.exts@).take(self.exts@.len() as int) =~= strings(self.exts@));
            }
            push_joined(&mut args, "--accept=", joined.as_slice());
        }
        let ghost accepted = strings(args@);
        if self.ignore_robots {
            push_str(&mut args, "-e");
            push_str(&mut args, "robots=off");
        }
        proof {
            assert(strings(args@) =~= walk_args_of(self));
        }
        args
    }

    /// Walk the site without saving anything, so the links can be shown
    /// before a single byte is downloaded: wget's arguments for that.
    pub fn spider_args(&self) -> (r: Vec<String>)
        ensures
            strings(r@) == seq!["--spider"@] + walk_args_of(self) + seq![self.url@],
    {
        let mut args: Vec<String> = Vec::new();
        push_str(&mut args, "--spider");
        let walk = self.walk_args();
        let mut i: usize = 0;
        while i < walk.len()
            invariant
                i <= walk@.len(),
                strings(args@) == seq!["--spider"@] + strings(walk@).take(i as int),
            decreases walk@.len() - i,
        {
            let s = walk[i].clone();
            proof {
                assert(s@ == walk@[i as int]@);
                assert(strings(walk@).take(i + 1 as int) =~= strings(walk@).take(i as int).push(s@));
                assert(strings(args@.push(s)) =~= strings(args@).push(s@));
            }
            args.push(s);
            i += 1;
        }
        proof {
            assert(strings(walk@).take(walk@.len() as int) =~= strings(walk@));
        }
        let u = self.url.clone();
        proof {
            assert(strings(args@.push(u)) =~= strings(args@).push(u@));
        }
        args.push(u);
        args
    }

    /// Flags for the offline mirror: page requisites, local link rewriting,
    /// timestamps so a re-run only fetches what changed, and file names that
    /// survive a query string.
    #[verifier::spinoff_prover]
    #[verifier::rlimit(40)]
    pub fn mirror_args(&self) -> (r: Vec<String>)
        ensures
            strings(r@) == mirror_args_of(self),
    {
        let mut args = self.walk_args();
        let ghost walk = strings(args@);
        push_str(&mut args, "--page-requisites");
        push_str(&mut args, "--convert-links");
        // Keeps the untouched original next to the rewritten copy; without
        // it every re-crawl sees its own edits as a change.
        push_str(&mut args, "--backup-converted");
        push_str(&mut args, "--adjust-extension");
        push_str(&mut args, "--timestamping");
        // A conditional request returns no body, and wget needs the page's
        // links to carry on walking.
        push_str(&mut args, "--no-if-modified-since");
        push_str(&mut args, "--restrict-file-names=windows");
        if self.flat {
            push_str(&mut args, "--no-directories");
        }
        proof {
            assert(strings(args@) =~= mirror_args_of(self));
        }
        args
    }
}

impl Default for Crawl {
    fn default() -> (c: Crawl)
        ensures
            c.url@.len() == 0 && c.depth == 1 && c.exts@.len() == 0 && c.includes@.len() == 0
                && c.excludes@.len() == 0 && c.min_size is None && c.max_size is None
                && c.same_domain && !c.under_path && !c.flat && !c.ignore_robots && !c.offline,
    {
        Crawl {
            url: String::new(),
            depth: 1,
            exts: Vec::new(),
            includes: Vec::new(),
            excludes: Vec::new(),
            min_size: None,
            max_size: None,
            same_domain: true,
            under_path: false,
            flat: false,
            ignore_robots: false,
            offline: false,
        }
    }
}


// ---------------------------------------------------------------------------
// The crawl form
// ---------------------------------------------------------------------------

/// Url patterns as the form reads them: comma-separated, each trimmed and
/// lowercased, empty ones dropped. Unlike extensions they keep their dots.
pub open spec fn patterns_of(value: Seq<char>) -> Seq<Seq<char>> {
    nonempty(seqs::split(value, ',').map_values(|p: Seq<char>| text::lowercase(seqs::trim(p))))
}

fn patterns(value: &[char]) -> (r: Vec<String>)
    ensures
        strings(r@) == patterns_of(value@),
{
    let parts = text::split(value, ',');
    let ghost pv = seqs::views(parts@);
    let ghost mapped = pv.map_values(|p: Seq<char>| text::lowercase(seqs::trim(p)));
    let mut r: Vec<String> = Vec::new();
    let mut i: usize = 0;
    proof {
        assert(mapped.take(0) =~= Seq::<Seq<char>>::empty());
    }
    while i < parts.len()
        invariant
            i <= parts@.len(),
            pv == seqs::views(parts@),
            mapped == pv.map_values(|p: Seq<char>| text::lowercase(seqs::trim(p))),
            strings(r@) == nonempty(mapped.take(i as int)),
        decreases parts@.len() - i,
    {
        let item = text::lower(text::trim(parts[i].as_slice()).as_slice());
        proof {
            assert(mapped[i as int] == item@);
            assert(mapped.take(i + 1).drop_last() =~= mapped.take(i as int));
            assert(mapped.take(i + 1).last() == item@);
        }
        if item.len() > 0 {
            let ghost before = strings(r@);
            r.push(text::string_of(item.as_slice()));
            proof {
                assert(strings(r@) =~= before.push(item@));
            }
        }
        i += 1;
    }
    proof {
        assert(mapped.take(parts@.len() as int) =~= mapped);
    }
    r
}

/// The size range as typed, `min-max`, either end optional.
pub open spec fn size_ends(v: Seq<char>) -> (Seq<char>, Seq<char>) {
    match seqs::split_once(v, seq!['-']) {
        Some((a, b)) => (a, b),
        None => (v, seq![]),
    }
}

/// The crawl the form describes: url, depth, extensions, include and
/// exclude patterns, a size range and option words. Anything that does not
/// read falls back to the default rather than refusing the whole form.
pub open spec fn crawl_of(f: Seq<Seq<char>>) -> (Seq<char>, u8, Seq<Seq<char>>, Seq<Seq<char>>, Seq<Seq<char>>, Option<u64>, Option<u64>) {
    (
        seqs::trim(f[0]),
        match seqs::parse_unsigned(seqs::trim(f[1]), 255) {
            Some(n) => n as u8,
            None => 1,
        },
        listed_of(f[2]),
        patterns_of(f[3]),
        patterns_of(f[4]),
        parse::size_of(size_ends(f[5]).0),
        parse::size_of(size_ends(f[5]).1),
    )
}

/// Build a crawl from the form's fields. Staying on the page's host is the
/// default; the option words turn things on and off: `any-domain`,
/// `under-path`, `flat`, `no-robots` (or `ignore-robots`), `offline`.
pub fn from_form(fields: &[String; 7]) -> (c: Crawl)
    ensures
        (c.url@, c.depth, strings(c.exts@), strings(c.includes@), strings(c.excludes@), c.min_size, c.max_size)
            == crawl_of(strings(fields@)),
        c.same_domain == !seqs::contains(text::lowercase(fields@[6]@), "any-domain"@),
        c.under_path == seqs::contains(text::lowercase(fields@[6]@), "under-path"@),
        c.flat == seqs::contains(text::lowercase(fields@[6]@), "flat"@),
        c.ignore_robots == (seqs::contains(text::lowercase(fields@[6]@), "no-robots"@)
            || seqs::contains(text::lowercase(fields@[6]@), "ignore-robots"@)),
        c.offline == seqs::contains(text::lowercase(fields@[6]@), "offline"@),
{
    let f: Vec<Vec<char>> = vec![
        text::chars_of(fields[0].as_str()),
        text::chars_of(fields[1].as_str()),
        text::chars_of(fields[2].as_str()),
        text::chars_of(fields[3].as_str()),
        text::chars_of(fields[4].as_str()),
        text::chars_of(fields[5].as_str()),
        text::chars_of(fields[6].as_str()),
    ];
    let options = text::lower(f[6].as_slice());
    let (min, max) = match text::split_once(f[5].as_slice(), text::one('-').as_slice()) {
        Some(parts) => parts,
        None => (text::slice_of(f[5].as_slice(), 0, f[5].len()), Vec::new()),
    };
    proof {
        assert(strings(fields@)[5] == fields@[5]@);
        if seqs::split_once(fields@[5]@, seq!['-']) is None {
            assert(min@ =~= fields@[5]@);
        }
    }
    let depth = match text::parse_unsigned(text::trim(f[1].as_slice()).as_slice(), 255) {
        Some(n) => n as u8,
        None => 1,
    };
    let c = Crawl {
        url: text::string_of(text::trim(f[0].as_slice()).as_slice()),
        depth,
        exts: crate::rule::listed(f[2].as_slice()),
        includes: patterns(f[3].as_slice()),
        excludes: patterns(f[4].as_slice()),
        min_size: parse::bytes(text::string_of(min.as_slice()).as_str()),
        max_size: parse::bytes(text::string_of(max.as_slice()).as_str()),
        same_domain: !text::contains(options.as_slice(), text::chars_of("any-domain").as_slice()),
        under_path: text::contains(options.as_slice(), text::chars_of("under-path").as_slice()),
        flat: text::contains(options.as_slice(), text::chars_of("flat").as_slice()),
        ignore_robots: text::contains(options.as_slice(), text::chars_of("no-robots").as_slice())
            || text::contains(options.as_slice(), text::chars_of("ignore-robots").as_slice()),
        offline: text::contains(options.as_slice(), text::chars_of("offline").as_slice()),
    };
    proof {
        assert(strings(fields@)[0] == fields@[0]@);
        assert(strings(fields@)[1] == fields@[1]@);
        assert(strings(fields@)[2] == fields@[2]@);
        assert(strings(fields@)[3] == fields@[3]@);
        assert(strings(fields@)[4] == fields@[4]@);
    }
    c
}

/// A url whose last segment would make a poor file name: a query string,
/// or no segment at all.
pub open spec fn needs_name_of(url: Seq<char>) -> bool {
    let path = seqs::before_any(url, seq!['#']);
    seqs::contains(path, seq!['?']) || path.len() == 0 || path.last() == '/'
}

/// Whether a picked link needs a file name given to it.
pub fn needs_name(url: &str) -> (r: bool)
    ensures
        r == needs_name_of(url@),
{
    let path = text::before_any(text::chars_of(url).as_slice(), text::one('#').as_slice());
    text::contains(path.as_slice(), text::one('?').as_slice()) || path.len() == 0 || path[path.len() - 1] == '/'
}

/// The settings a picked link is queued with: under the download directory
/// at the path its url maps to (nothing when it maps to none), and a file
/// name only where the url would not give a usable one.
pub fn picked_settings(url: &str, flat: bool, base: &str) -> (o: crate::download::Overrides)
    ensures
        o.dir@ == (if local_dir_of(url@, flat).len() == 0 {
            seq![]
        } else {
            base@ + seq!['/'] + local_dir_of(url@, flat)
        }),
        o.name@ == (if needs_name_of(url@) { local_name_of(url@) } else { seq![] }),
        o.rate@.len() == 0 && o.backend@.len() == 0 && o.args@.len() == 0 && o.user@.len() == 0
            && o.pass@.len() == 0,
{
    let dir = local_dir(url, flat);
    let d = if dir.as_str().is_empty() {
        String::new()
    } else {
        let mut v = text::chars_of(base);
        v.push('/');
        text::push_all(&mut v, text::chars_of(dir.as_str()).as_slice());
        text::string_of(v.as_slice())
    };
    let name = if needs_name(url) { local_name(url) } else { String::new() };
    crate::download::Overrides {
        dir: d,
        name,
        rate: String::new(),
        backend: String::new(),
        args: String::new(),
        user: String::new(),
        pass: String::new(),
    }
}

/// The settings an offline mirror runs with: wget, with the mirroring
/// flags.
pub fn mirror_settings(c: &Crawl) -> (o: crate::download::Overrides)
    ensures
        o.backend@ == "wget"@,
        o.args@ == join(mirror_args_of(c), seq![' ']),
        o.dir@.len() == 0 && o.name@.len() == 0 && o.rate@.len() == 0 && o.user@.len() == 0 && o.pass@.len() == 0,
{
    let a = c.mirror_args();
    crate::download::Overrides {
        dir: String::new(),
        name: String::new(),
        rate: String::new(),
        backend: String::from_str("wget"),
        args: text::string_of(crate::rule::join_texts(crate::rule::chars_all(a.as_slice()).as_slice(), text::one(' ').as_slice()).as_slice()),
        user: String::new(),
        pass: String::new(),
    }
}

/// The same filters, but for the extensions: the same page, patterns, host
/// rule and size bounds.
pub open spec fn same_but_exts(a: &Crawl, b: &Crawl) -> bool {
    &&& a.url@ == b.url@
    &&& strings(a.includes@) == strings(b.includes@)
    &&& strings(a.excludes@) == strings(b.excludes@)
    &&& a.same_domain == b.same_domain
    &&& a.min_size == b.min_size
    &&& a.max_size == b.max_size
}

/// Every listed extension counts, not only the first: a url whose path ends
/// in `.` and any one of them passes the extension filter, so it is kept
/// exactly when a crawl that asks for every type keeps it.
pub proof fn law_every_listed_extension_counts(c: &Crawl, open: &Crawl, url: Seq<char>, size: Option<u64>, i: int)
    requires
        same_but_exts(c, open),
        open.exts@.len() == 0,
        0 <= i < c.exts@.len(),
        seqs::ends_with(seqs::before_any(text::lowercase(url), seq!['?', '#']), seq!['.'] + c.exts@[i]@),
    ensures
        keeps(c, url, size) == keeps(open, url, size),
{
    let path = seqs::before_any(text::lowercase(url), seq!['?', '#']);
    assert(strings(c.exts@)[i] == c.exts@[i]@);
    assert(has_ext(strings(c.exts@), path));
    assert(strings(c.exts@).len() == c.exts@.len());
    lemma_same_includes_len(c, open);
}

proof fn lemma_same_includes_len(a: &Crawl, b: &Crawl)
    requires
        same_but_exts(a, b),
    ensures
        a.includes@.len() == b.includes@.len(),
{
    assert(strings(a.includes@).len() == a.includes@.len());
    assert(strings(b.includes@).len() == b.includes@.len());
}

/// Only which extensions are listed matters, not their order or repeats:
/// two crawls listing the same extensions keep the same urls.
pub proof fn law_extension_order_does_not_matter(a: &Crawl, b: &Crawl, url: Seq<char>, size: Option<u64>)
    requires
        same_but_exts(a, b),
        forall|i: int| 0 <= i < a.exts@.len() ==> strings(b.exts@).contains(#[trigger] strings(a.exts@)[i]),
        forall|j: int| 0 <= j < b.exts@.len() ==> strings(a.exts@).contains(#[trigger] strings(b.exts@)[j]),
    ensures
        keeps(a, url, size) == keeps(b, url, size),
{
    let path = seqs::before_any(text::lowercase(url), seq!['?', '#']);
    lemma_has_ext_within(strings(a.exts@), strings(b.exts@), path);
    lemma_has_ext_within(strings(b.exts@), strings(a.exts@), path);
    if a.exts@.len() > 0 {
        assert(strings(b.exts@).contains(strings(a.exts@)[0]));
    }
    if b.exts@.len() > 0 {
        assert(strings(a.exts@).contains(strings(b.exts@)[0]));
    }
    assert(has_ext(strings(a.exts@), path) == has_ext(strings(b.exts@), path));
    assert(a.exts@.len() == 0 <==> b.exts@.len() == 0);
    lemma_same_includes_len(a, b);
}

proof fn lemma_has_ext_within(x: Seq<Seq<char>>, y: Seq<Seq<char>>, path: Seq<char>)
    requires
        forall|i: int| 0 <= i < x.len() ==> y.contains(#[trigger] x[i]),
    ensures
        has_ext(x, path) ==> has_ext(y, path),
{
    if has_ext(x, path) {
        let i = choose|i: int| 0 <= i < x.len() && seqs::ends_with(path, seq!['.'] + #[trigger] x[i]);
        assert(y.contains(x[i]));
        let j = choose|j: int| 0 <= j < y.len() && y[j] == x[i];
        assert(seqs::ends_with(path, seq!['.'] + y[j]));
    }
}

} // verus!
