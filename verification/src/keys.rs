//! The pieces of keyboard handling that decide something: the add form, the
//! playlist picker and its filters, multi-row picking, and the which-key
//! menus.
use vstd::prelude::*;

use crate::crawl::{wild, wild_matches};
use crate::download::Overrides;
use crate::edit::Key;
use crate::seqs;
use crate::text;
use crate::utils::{self, range_of, strings, expansion, MAX_EXPANSION};
use crate::board::{expand_home, home_expanded};
use crate::download::{over_view, OverView};
use crate::ytdlp::{date, date_of, Entry, Listing};

verus! {

// ---------------------------------------------------------------------------
// The add form
// ---------------------------------------------------------------------------

/// How many fields the add form has: url, range, directory, file name, rate
/// limit, user and password, in display order.
pub const FORM_FIELDS: usize = 7;

/// A url plus the settings for that download alone.
#[derive(Debug, Clone, Default, PartialEq)]
pub struct Form {
    pub fields: [String; 7],
    /// Field being typed into.
    pub cursor: usize,
}

impl Form {
    /// This download's own settings: directory, name, rate and login, trimmed
    /// but for the password, whose spaces are part of it.
    pub fn overrides(&self) -> (r: Overrides)
        ensures
            r.dir@ == seqs::trim(self.fields@[2]@),
            r.name@ == seqs::trim(self.fields@[3]@),
            r.rate@ == seqs::trim(self.fields@[4]@),
            r.backend@.len() == 0,
            r.args@.len() == 0,
            r.user@ == seqs::trim(self.fields@[5]@),
            r.pass@ == self.fields@[6]@,
    {
        let trimmed = |i: usize| -> (s: String)
            requires
                i < 7,
            ensures
                s@ == seqs::trim(self.fields@[i as int]@),
            { text::string_of(text::trim(text::chars_of(self.fields[i].as_str()).as_slice()).as_slice()) };
        Overrides {
            dir: trimmed(2),
            name: trimmed(3),
            rate: trimmed(4),
            // Only a rule or a crawl sets these; the form has no field.
            backend: String::new(),
            args: String::new(),
            user: trimmed(5),
            pass: self.fields[6].clone(),
        }
    }

    /// Every url this form will add: one per number in the range.
    pub fn urls(&self) -> (r: Vec<String>)
        requires
            range_of(self.fields@[1]@) matches Some((from, _)) ==> from + MAX_EXPANSION - 1 <= i64::MAX,
        ensures
            strings(r@) == expansion(seqs::trim(self.fields@[0]@), self.fields@[1]@),
    {
        let url = text::string_of(text::trim(text::chars_of(self.fields[0].as_str()).as_slice()).as_slice());
        utils::expand(url.as_str(), self.fields[1].as_str())
    }
}

/// The file name the `i`th download of a form gets: numbered like its url
/// when a range is given, or every item of the range would write one file.
pub open spec fn item_name(name: Seq<char>, range: Seq<char>, i: int) -> Seq<char> {
    match range_of(range) {
        Some((from, _)) => utils::filled(name, from + i),
        None => name,
    }
}

impl Form {
    /// Every download this form adds: each url of the range with this
    /// download's own settings, its file name numbered along.
    pub fn items(&self) -> (r: Vec<(String, Overrides)>)
        requires
            range_of(self.fields@[1]@) matches Some((from, _)) ==> from + MAX_EXPANSION - 1 <= i64::MAX,
        ensures
            r@.len() == expansion(seqs::trim(self.fields@[0]@), self.fields@[1]@).len(),
            forall|i: int| 0 <= i < r@.len() ==> {
                &&& (#[trigger] r@[i]).0@ == expansion(seqs::trim(self.fields@[0]@), self.fields@[1]@)[i]
                &&& r@[i].1.name@ == item_name(seqs::trim(self.fields@[3]@), self.fields@[1]@, i)
                &&& r@[i].1.dir@ == seqs::trim(self.fields@[2]@)
                &&& r@[i].1.rate@ == seqs::trim(self.fields@[4]@)
                &&& r@[i].1.user@ == seqs::trim(self.fields@[5]@)
                &&& r@[i].1.pass@ == self.fields@[6]@
                &&& r@[i].1.backend@.len() == 0
                &&& r@[i].1.args@.len() == 0
            },
    {
        let urls = self.urls();
        let range = utils::parse_range(self.fields[1].as_str());
        let mut r: Vec<(String, Overrides)> = Vec::new();
        let mut i: usize = 0;
        proof {
            let e = expansion(seqs::trim(self.fields@[0]@), self.fields@[1]@);
            assert(strings(urls@).len() == urls@.len());
            match range_of(self.fields@[1]@) {
                Some((from, to)) => {
                    assert(e.len() <= MAX_EXPANSION);
                },
                None => {},
            }
        }
        while i < urls.len()
            invariant
                i <= urls@.len(),
                strings(urls@) == expansion(seqs::trim(self.fields@[0]@), self.fields@[1]@),
                urls@.len() <= MAX_EXPANSION,
                range_of(self.fields@[1]@) matches Some((from, _)) ==> from + MAX_EXPANSION - 1 <= i64::MAX,
                match range {
                    Some((from, to)) => range_of(self.fields@[1]@) == Some((from as int, to as int)),
                    None => range_of(self.fields@[1]@) is None,
                },
                r@.len() == i,
                forall|k: int| 0 <= k < i ==> {
                    &&& (#[trigger] r@[k]).0@ == expansion(seqs::trim(self.fields@[0]@), self.fields@[1]@)[k]
                    &&& r@[k].1.name@ == item_name(seqs::trim(self.fields@[3]@), self.fields@[1]@, k)
                    &&& r@[k].1.dir@ == seqs::trim(self.fields@[2]@)
                    &&& r@[k].1.rate@ == seqs::trim(self.fields@[4]@)
                    &&& r@[k].1.user@ == seqs::trim(self.fields@[5]@)
                    &&& r@[k].1.pass@ == self.fields@[6]@
                    &&& r@[k].1.backend@.len() == 0
                    &&& r@[k].1.args@.len() == 0
                },
            decreases urls@.len() - i,
        {
            let mut over = self.overrides();
            match range {
                Some((from, _)) => {
                    over.name = utils::fill(over.name.as_str(), from + i as i64);
                },
                None => {},
            }
            let url = text::string_of(text::chars_of(urls[i].as_str()).as_slice());
            proof {
                assert(strings(urls@)[i as int] == urls@[i as int]@);
            }
            r.push((url, over));
            i += 1;
        }
        r
    }
}

/// One key typed into a multi-field form: Enter and Esc are the caller's,
/// Tab and the arrows move between fields, and the rest edits the field
/// under the cursor at its end.
pub open spec fn form_key(fields: Seq<Seq<char>>, cursor: int, key: Key) -> (Seq<Seq<char>>, int, bool) {
    let n = 7int;
    match key {
        Key::Enter => (fields, cursor, true),
        Key::Esc => (fields, cursor, true),
        Key::Tab => (fields, (cursor + 1) % n, false),
        Key::Down => (fields, (cursor + 1) % n, false),
        Key::BackTab => (fields, (cursor + n - 1) % n, false),
        Key::Up => (fields, (cursor + n - 1) % n, false),
        Key::Backspace => if fields[cursor].len() > 0 {
            (fields.update(cursor, fields[cursor].drop_last()), cursor, false)
        } else {
            (fields, cursor, false)
        },
        Key::Char(c) => (fields.update(cursor, fields[cursor].push(c)), cursor, false),
        _ => (fields, cursor, false),
    }
}

/// One keypress into a multi-field form. Returns true when the form is done
/// with the key (Enter to submit, Esc to drop it) and false while it is
/// still being typed into.
pub fn type_in_form(form: &mut Form, key: Key) -> (done: bool)
    requires
        old(form).cursor < 7,
    ensures
        (strings(final(form).fields@), final(form).cursor as int, done) == form_key(
            strings(old(form).fields@),
            old(form).cursor as int,
            key,
        ),
        final(form).cursor < 7,
{
    let ghost before = strings(form.fields@);
    match key {
        Key::Enter | Key::Esc => {
            return true;
        },
        Key::Tab | Key::Down => {
            form.cursor = (form.cursor + 1) % 7;
        },
        Key::BackTab | Key::Up => {
            form.cursor = (form.cursor + 6) % 7;
        },
        Key::Backspace => {
            let i = form.cursor;
            let t = text::chars_of(form.fields[i].as_str());
            if t.len() > 0 {
                let shorter = text::string_of(text::slice_of(t.as_slice(), 0, t.len() - 1).as_slice());
                form.fields[i] = shorter;
                proof {
                    assert(strings(form.fields@) =~= before.update(i as int, before[i as int].drop_last()));
                }
            }
        },
        Key::Char(c) => {
            let i = form.cursor;
            let mut t = text::chars_of(form.fields[i].as_str());
            t.push(c);
            form.fields[i] = text::string_of(t.as_slice());
            proof {
                assert(strings(form.fields@) =~= before.update(i as int, before[i as int].push(c)));
            }
        },
        _ => {},
    }
    false
}

// ---------------------------------------------------------------------------
// The playlist picker
// ---------------------------------------------------------------------------

/// A picker field that takes text.
#[derive(Debug, Clone, Copy, PartialEq, Eq)]
pub enum Field {
    Dir,
    Words,
    /// The two ends of the upload-date range, each typed on its own.
    From,
    To,
}

/// A playlist listed but not yet queued: its entries, which of them are
/// picked, and the settings they will be queued with.
#[derive(Debug, Clone, Default, PartialEq)]
pub struct Pick {
    pub listing: Listing,
    /// Entries picked, as indexes into `listing.entries`.
    pub picked: Vec<usize>,
    /// Row the cursor is on, as a position in `shown`.
    pub at: usize,
    /// Words the title must contain; `-word` must not appear and `*` is a
    /// wildcard. Rows that do not match are hidden and stay unpicked.
    pub words: String,
    /// Field being typed into, while it is being typed.
    pub editing: Option<(Field, String)>,
}

/// `a` sorts at or before `b`, character by character, as `str`'s order
/// has it.
pub open spec fn lex_le(a: Seq<char>, b: Seq<char>) -> bool
    decreases a.len(),
{
    if a.len() == 0 {
        true
    } else if b.len() == 0 {
        false
    } else if a[0] != b[0] {
        a[0] < b[0]
    } else {
        lex_le(a.drop_first(), b.drop_first())
    }
}

/// What the word filter reads of an entry: its title, or its url when it has
/// none, lowercased.
pub open spec fn entry_text(e: Entry) -> Seq<char> {
    if e.title@.len() == 0 {
        text::lowercase(e.url@)
    } else {
        text::lowercase(e.title@)
    }
}

/// Every typed word is in the text, and no `-word` is.
pub open spec fn words_match(words: Seq<Seq<char>>, t: Seq<char>) -> bool {
    forall|i: int|
        0 <= i < words.len() ==> if (#[trigger] words[i]).len() > 0 && words[i][0] == '-' {
            !wild_matches(words[i].drop_first(), t)
        } else {
            wild_matches(words[i], t)
        }
}

/// An entry's date is in the range. `YYYYMMDD` sorts as text, so a range is
/// two comparisons; an entry the listing gave no date for is kept rather
/// than hidden by a filter it cannot answer.
pub open spec fn date_matches(date: Seq<char>, after: Seq<char>, before: Seq<char>) -> bool {
    date.len() == 0 || ((after.len() == 0 || lex_le(after, date)) && (before.len() == 0 || lex_le(
        date,
        before,
    )))
}

/// The entry at `i` passes the filters.
pub open spec fn entry_shown(p: Pick, i: int) -> bool {
    let e = p.listing.entries@[i];
    words_match(seqs::words(p.words@), entry_text(e)) && date_matches(
        e.date@,
        p.listing.dates.after@,
        p.listing.dates.before@,
    )
}

/// The entries among the first `n` that pass the filters, as indexes.
pub open spec fn shown_upto(p: Pick, n: int) -> Seq<usize>
    decreases n,
{
    if n <= 0 {
        seq![]
    } else if entry_shown(p, n - 1) {
        shown_upto(p, n - 1).push((n - 1) as usize)
    } else {
        shown_upto(p, n - 1)
    }
}

/// How many of the first `n` entries have no date.
pub open spec fn undated_upto(entries: Seq<Entry>, n: int) -> nat
    decreases n,
{
    if n <= 0 {
        0
    } else {
        undated_upto(entries, n - 1) + if entries[n - 1].date@.len() == 0 {
            1nat
        } else {
            0nat
        }
    }
}

fn lex_le_exec(a: &[char], b: &[char]) -> (r: bool)
    ensures
        r == lex_le(a@, b@),
{
    let mut i: usize = 0;
    proof {
        assert(a@.skip(0) =~= a@);
        assert(b@.skip(0) =~= b@);
    }
    while i < a.len() && i < b.len() && a[i] == b[i]
        invariant
            i <= a@.len(),
            i <= b@.len(),
            lex_le(a@, b@) == lex_le(a@.skip(i as int), b@.skip(i as int)),
        decreases a@.len() - i,
    {
        proof {
            assert(a@.skip(i as int).drop_first() =~= a@.skip(i + 1));
            assert(b@.skip(i as int).drop_first() =~= b@.skip(i + 1));
        }
        i += 1;
    }
    proof {
        if i < a@.len() {
            assert(a@.skip(i as int)[0] == a@[i as int]);
        }
        if i < b@.len() {
            assert(b@.skip(i as int)[0] == b@[i as int]);
        }
    }
    if i == a.len() {
        true
    } else if i == b.len() {
        false
    } else {
        a[i] < b[i]
    }
}

impl Pick {
    /// A field typed into and accepted. The directory is taken with `~` for
    /// the home directory; the words become the filter and the picks become
    /// exactly what it shows, the cursor back at the top; a date end is set
    /// as yt-dlp reads it, and true says the playlist has to be listed again
    /// for it, since the dates in a flat listing are approximate.
    pub fn type_field(&mut self, field: Field, buf: &str, home: &str) -> (relist: bool)
        ensures
            relist == (field == Field::From || field == Field::To),
            final(self).editing == old(self).editing,
            match field {
                Field::Dir => {
                    &&& final(self).listing.over.dir@ == home_expanded(seqs::trim(buf@), home@)
                    &&& over_view(final(self).listing.over) == (OverView {
                        dir: final(self).listing.over.dir@,
                        ..over_view(old(self).listing.over)
                    })
                    &&& final(self).listing.entries@ == old(self).listing.entries@
                    &&& final(self).listing.dates == old(self).listing.dates
                    &&& final(self).words == old(self).words
                    &&& final(self).picked@ == old(self).picked@
                    &&& final(self).at == old(self).at
                },
                Field::Words => {
                    &&& final(self).words@ == text::lowercase(seqs::trim(buf@))
                    &&& final(self).listing == old(self).listing
                    &&& final(self).picked@ == shown_upto(
                        (Pick { words: final(self).words, ..*old(self) }),
                        old(self).listing.entries@.len() as int,
                    )
                    &&& final(self).at == 0
                },
                Field::From => {
                    &&& final(self).listing.dates.after@ == date_of(buf@)
                    &&& final(self).listing.dates.before == old(self).listing.dates.before
                    &&& final(self).listing.entries@ == old(self).listing.entries@
                    &&& final(self).words == old(self).words
                    &&& final(self).picked@ == old(self).picked@
                },
                Field::To => {
                    &&& final(self).listing.dates.before@ == date_of(buf@)
                    &&& final(self).listing.dates.after == old(self).listing.dates.after
                    &&& final(self).listing.entries@ == old(self).listing.entries@
                    &&& final(self).words == old(self).words
                    &&& final(self).picked@ == old(self).picked@
                },
            },
    {
        match field {
            Field::Dir => {
                let t = text::string_of(text::trim(text::chars_of(buf).as_slice()).as_slice());
                self.listing.over.dir = expand_home(t.as_str(), home);
                proof {
                    assert(over_view(self.listing.over) =~= OverView {
                        dir: self.listing.over.dir@,
                        ..over_view(old(self).listing.over)
                    });
                }
                false
            },
            Field::Words => {
                let t = text::trim(text::chars_of(buf).as_slice());
                self.words = text::string_of(text::lower(t.as_slice()).as_slice());
                self.picked = self.shown();
                self.at = 0;
                false
            },
            Field::From => {
                self.listing.dates.after = date(buf);
                true
            },
            Field::To => {
                self.listing.dates.before = date(buf);
                true
            },
        }
    }

    /// The entry at `i` passes the word and date filters.
    fn passes(&self, words: &Vec<Vec<char>>, i: usize) -> (r: bool)
        requires
            i < self.listing.entries@.len(),
            seqs::views(words@) == seqs::words(self.words@),
        ensures
            r == entry_shown(*self, i as int),
    {
        let e = &self.listing.entries[i];
        let t = if e.title.as_str().is_empty() {
            text::lower(text::chars_of(e.url.as_str()).as_slice())
        } else {
            text::lower(text::chars_of(e.title.as_str()).as_slice())
        };
        let text_now = text::string_of(t.as_slice());
        let ghost ws = seqs::words(self.words@);
        let mut ok = true;
        let mut w: usize = 0;
        while w < words.len()
            invariant
                w <= words@.len(),
                seqs::views(words@) == ws,
                text_now@ == entry_text(self.listing.entries@[i as int]),
                ok == forall|j: int|
                    0 <= j < w ==> if (#[trigger] ws[j]).len() > 0 && ws[j][0] == '-' {
                        !wild_matches(ws[j].drop_first(), text_now@)
                    } else {
                        wild_matches(ws[j], text_now@)
                    },
            decreases words@.len() - w,
        {
            let word = &words[w];
            proof {
                assert(ws[w as int] == word@);
            }
            let hit = if word.len() > 0 && word[0] == '-' {
                let n = word.len();
                let rest = text::slice_of(word.as_slice(), 1, n);
                proof {
                    assert(rest@ =~= word@.drop_first());
                }
                !wild(text::string_of(rest.as_slice()).as_str(), text_now.as_str())
            } else {
                wild(text::string_of(word.as_slice()).as_str(), text_now.as_str())
            };
            ok = ok && hit;
            w += 1;
        }
        let date = text::chars_of(e.date.as_str());
        let after = text::chars_of(self.listing.dates.after.as_str());
        let before = text::chars_of(self.listing.dates.before.as_str());
        let by_date = date.len() == 0 || ((after.len() == 0 || lex_le_exec(after.as_slice(), date.as_slice()))
            && (before.len() == 0 || lex_le_exec(date.as_slice(), before.as_slice())));
        ok && by_date
    }

    /// Entries matching the filters, as indexes. Everything when nothing is
    /// typed, so this is the list to walk in every case.
    pub fn shown(&self) -> (r: Vec<usize>)
        ensures
            r@ == shown_upto(*self, self.listing.entries@.len() as int),
    {
        let words = text::words(text::chars_of(self.words.as_str()).as_slice());
        let mut r: Vec<usize> = Vec::new();
        let mut i: usize = 0;
        while i < self.listing.entries.len()
            invariant
                i <= self.listing.entries@.len(),
                seqs::views(words@) == seqs::words(self.words@),
                r@ == shown_upto(*self, i as int),
            decreases self.listing.entries@.len() - i,
        {
            if self.passes(&words, i) {
                r.push(i);
            }
            i += 1;
        }
        r
    }

    /// Entries the listing gave no date for, which no date filter can judge.
    pub fn undated(&self) -> (r: usize)
        ensures
            r == undated_upto(self.listing.entries@, self.listing.entries@.len() as int),
    {
        let mut n: usize = 0;
        let mut i: usize = 0;
        while i < self.listing.entries.len()
            invariant
                i <= self.listing.entries@.len(),
                n == undated_upto(self.listing.entries@, i as int),
                n <= i,
            decreases self.listing.entries@.len() - i,
        {
            if self.listing.entries[i].date.as_str().is_empty() {
                n += 1;
            }
            i += 1;
        }
        n
    }
}

// ---------------------------------------------------------------------------
// Picking rows
// ---------------------------------------------------------------------------

/// The first position of `x` in `s`.
pub open spec fn position_of(s: Seq<usize>, x: usize, i: int) -> Option<int>
    decreases s.len() - i,
{
    if i < 0 || i >= s.len() {
        None
    } else if s[i] == x {
        Some(i)
    } else {
        position_of(s, x, i + 1)
    }
}

/// What a key does in a list of rows some of which are picked: move, pick
/// or unpick the row under the cursor, or pick all (none when all are).
pub open spec fn pick_nav_spec(key: Key, len: usize, picked: Seq<usize>, at: usize) -> (Seq<usize>, usize) {
    let last = if len > 0 { (len - 1) as usize } else { 0usize };
    if key == Key::Down || key == Key::Char('j') {
        (picked, if at + 1 < last { (at + 1) as usize } else { last })
    } else if key == Key::Up || key == Key::Char('k') {
        (picked, if at > 0 { (at - 1) as usize } else { 0usize })
    } else if key == Key::Char(' ') {
        match position_of(picked, at, 0) {
            Some(i) => (picked.remove(i), at),
            None => (picked.push(at), at),
        }
    } else if key == Key::Char('a') {
        if picked.len() == len {
            (seq![], at)
        } else {
            (Seq::new(len as nat, |i: int| i as usize), at)
        }
    } else {
        (picked, at)
    }
}

proof fn lemma_position(s: Seq<usize>, x: usize, i: int)
    requires
        0 <= i,
    ensures
        position_of(s, x, i) matches Some(j) ==> i <= j < s.len(),
    decreases s.len() - i,
{
    if i < s.len() && s[i] != x {
        lemma_position(s, x, i + 1);
    }
}

/// Where `x` first is in `s`.
fn position(s: &Vec<usize>, x: usize) -> (r: Option<usize>)
    ensures
        match position_of(s@, x, 0) {
            Some(j) => r matches Some(k) && k as int == j && j < s@.len(),
            None => r is None,
        },
{
    proof {
        lemma_position(s@, x, 0);
    }
    let mut i: usize = 0;
    while i < s.len()
        invariant
            i <= s@.len(),
            position_of(s@, x, 0) == position_of(s@, x, i as int),
        decreases s@.len() - i,
    {
        if s[i] == x {
            return Some(i);
        }
        i += 1;
    }
    None
}

/// Moves, picks and unpicks in a list of `len` rows.
pub fn pick_nav(key: Key, len: usize, picked: &mut Vec<usize>, at: &mut usize)
    requires
        *old(at) < usize::MAX,
    ensures
        (final(picked)@, *final(at)) == pick_nav_spec(key, len, old(picked)@, *old(at)),
{
    let last = if len > 0 { len - 1 } else { 0 };
    match key {
        Key::Down | Key::Char('j') => {
            *at = if *at + 1 < last { *at + 1 } else { last };
        },
        Key::Up | Key::Char('k') => {
            *at = if *at > 0 { *at - 1 } else { 0 };
        },
        Key::Char(' ') => {
            let found = position(picked, *at);
            match found {
                Some(i) => {
                    picked.remove(i);
                },
                None => {
                    picked.push(*at);
                },
            }
        },
        Key::Char('a') => {
            if picked.len() == len {
                *picked = Vec::new();
            } else {
                let mut all: Vec<usize> = Vec::new();
                let mut i: usize = 0;
                while i < len
                    invariant
                        i <= len,
                        all@ == Seq::new(i as nat, |j: int| j as usize),
                    decreases len - i,
                {
                    all.push(i);
                    proof {
                        assert(all@ =~= Seq::new((i + 1) as nat, |j: int| j as usize));
                    }
                    i += 1;
                }
                *picked = all;
            }
        },
        _ => {},
    }
}

// ---------------------------------------------------------------------------
// Menus
// ---------------------------------------------------------------------------

/// One entry of a which-key style menu: press the prefix, then this key.
#[derive(Debug, Clone, Copy, PartialEq, Eq)]
pub struct MenuItem {
    pub key: char,
    pub label: &'static str,
}

/// A menu as (key, label) pairs.
pub open spec fn menu_views(v: Seq<MenuItem>) -> Seq<(char, Seq<char>)> {
    v.map_values(|m: MenuItem| (m.key, m.label@))
}

/// Queue commands, reached with the `g` prefix (`gn`, `gr`, ...); `q` stays
/// quit. The menu popover renders this table, so an entry documents itself.
pub open spec fn queue_menu_table() -> Seq<(char, Seq<char>)> {
    seq![
        ('n', "new queue"@),
        ('r', "rename queue"@),
        ('d', "delete queue"@),
        ('c', "clear finished rows"@),
        ('C', "clear every row (also `C`)"@),
        ('p', "pause / resume this queue"@),
        ('t', "schedule (window, days, quota…)"@),
        ('P', "pause / resume every queue"@),
        ('g', "first row"@),
        ('j', "next queue"@),
        ('k', "previous queue"@),
        ('>', "move this queue right"@),
        ('<', "move this queue left"@),
        ('+', "one more slot"@),
        ('-', "one less slot"@),
    ]
}

/// Commands for the selected row, reached with the `i` prefix.
pub open spec fn item_menu_table() -> Seq<(char, Seq<char>)> {
    seq![
        ('r', "remove"@),
        ('R', "remove and delete the file"@),
        ('o', "open"@),
        ('f', "open containing folder"@),
        ('F', "force restart (torrents)"@),
        ('t', "retry (failed or cancelled)"@),
    ]
}

/// The queue menu.
pub fn queue_menu() -> (r: Vec<MenuItem>)
    ensures
        menu_views(r@) == queue_menu_table(),
{
    let mut r: Vec<MenuItem> = Vec::new();
    r.push(MenuItem { key: 'n', label: "new queue" });
    r.push(MenuItem { key: 'r', label: "rename queue" });
    r.push(MenuItem { key: 'd', label: "delete queue" });
    r.push(MenuItem { key: 'c', label: "clear finished rows" });
    r.push(MenuItem { key: 'C', label: "clear every row (also `C`)" });
    r.push(MenuItem { key: 'p', label: "pause / resume this queue" });
    r.push(MenuItem { key: 't', label: "schedule (window, days, quota…)" });
    r.push(MenuItem { key: 'P', label: "pause / resume every queue" });
    r.push(MenuItem { key: 'g', label: "first row" });
    r.push(MenuItem { key: 'j', label: "next queue" });
    r.push(MenuItem { key: 'k', label: "previous queue" });
    r.push(MenuItem { key: '>', label: "move this queue right" });
    r.push(MenuItem { key: '<', label: "move this queue left" });
    r.push(MenuItem { key: '+', label: "one more slot" });
    r.push(MenuItem { key: '-', label: "one less slot" });
    proof {
        assert(menu_views(r@) =~= queue_menu_table());
    }
    r
}

/// The item menu.
pub fn item_menu() -> (r: Vec<MenuItem>)
    ensures
        menu_views(r@) == item_menu_table(),
{
    let mut r: Vec<MenuItem> = Vec::new();
    r.push(MenuItem { key: 'r', label: "remove" });
    r.push(MenuItem { key: 'R', label: "remove and delete the file" });
    r.push(MenuItem { key: 'o', label: "open" });
    r.push(MenuItem { key: 'f', label: "open containing folder" });
    r.push(MenuItem { key: 'F', label: "force restart (torrents)" });
    r.push(MenuItem { key: 't', label: "retry (failed or cancelled)" });
    proof {
        assert(menu_views(r@) =~= item_menu_table());
    }
    r
}

/// The menu a prefix key opens, with its title: `g` for queues, `i` for the
/// selected row; any other key opens none.
pub fn menu_for(prefix: char) -> (r: Option<(&'static str, Vec<MenuItem>)>)
    ensures
        prefix == 'g' ==> (r matches Some((t, m)) && t@ == "queue"@ && menu_views(m@) == queue_menu_table()),
        prefix == 'i' ==> (r matches Some((t, m)) && t@ == "item"@ && menu_views(m@) == item_menu_table()),
        prefix != 'g' && prefix != 'i' ==> r is None,
{
    if prefix == 'g' {
        Some(("queue", queue_menu()))
    } else if prefix == 'i' {
        Some(("item", item_menu()))
    } else {
        None
    }
}

} // verus!
