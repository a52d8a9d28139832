//! The settings panel: a tab bar over the general choices, the backends'
//! flags, the crawler's defaults, the routing rules, the channels and the
//! log. It handles its own keys, and hands the app what only the app can do
//! as an `Action`.
use vstd::prelude::*;

use crate::backend::{tool_name, Tool};
use crate::channel::{channel_views, Channel};
use crate::edit::{self, typed_into, Key, Mods};
use crate::option::table;
use crate::options::{on_key_spec, opened, Action, Options, OptionsView};
use crate::rule::{empty_rule, get_of, rule_views, set_of, Rule, RuleView};
use crate::seqs;
use crate::text;
use crate::ytdlp::{date, date_of};

verus! {

/// How many tabs the panel has: general, backends, crawler, categories,
/// channels and log.
pub const TABS: usize = 6;

/// How many rows the general tab has: theme, download directory, nerd font
/// icons, and asking before a playlist is downloaded.
pub const GENERAL: usize = 4;

/// Rows on the categories tab per rule: a header, then its seven fields.
pub const RULE_ROWS: usize = 8;

/// A tab's name, as the tab bar shows it.
pub open spec fn tab_text(i: int) -> Seq<char> {
    if i == 0 {
        "general"@
    } else if i == 1 {
        "backends"@
    } else if i == 2 {
        "crawler"@
    } else if i == 3 {
        "categories"@
    } else if i == 4 {
        "channels"@
    } else {
        "log"@
    }
}

/// A tab's name, as the tab bar shows it.
pub fn tab_name(i: usize) -> (r: &'static str)
    requires
        i < TABS,
    ensures
        r@ == tab_text(i as int),
{
    if i == 0 {
        "general"
    } else if i == 1 {
        "backends"
    } else if i == 2 {
        "crawler"
    } else if i == 3 {
        "categories"
    } else if i == 4 {
        "channels"
    } else {
        "log"
    }
}

/// A row of the general tab, as it is labelled.
pub open spec fn general_text(i: int) -> Seq<char> {
    if i == 0 {
        "theme"@
    } else if i == 1 {
        "download directory"@
    } else if i == 2 {
        "nerd font icons"@
    } else {
        "confirm before dl playlist"@
    }
}

/// A row of the general tab, as it is labelled.
pub fn general_row(i: usize) -> (r: &'static str)
    requires
        i < GENERAL,
    ensures
        r@ == general_text(i as int),
{
    if i == 0 {
        "theme"
    } else if i == 1 {
        "download directory"
    } else if i == 2 {
        "nerd font icons"
    } else {
        "confirm before dl playlist"
    }
}

/// The panel.
pub struct Settings {
    pub tab: usize,
    pub cursor: usize,
    /// The backends tab: one backend's flags at a time.
    pub options: Options,
    /// The crawler tab: the defaults the crawl dialog opens with.
    pub crawl: Options,
    /// The categories tab edits a copy; the app takes it back on close, so
    /// a half-typed rule never routes anything.
    pub rules: Vec<Rule>,
    /// Rule field being typed into, as (row, text).
    pub editing_rule: Option<(usize, String)>,
    /// Channels to keep up with, written on the way out.
    pub channels: Vec<Channel>,
    /// Channel field being typed into, as (row, the date rather than the
    /// url, text).
    pub editing_channel: Option<(usize, bool, String)>,
    /// Where the caret sits in whichever of the two is open. `usize::MAX` is
    /// the end, where a freshly opened field puts it.
    pub caret: usize,
    /// How many lines the log holds.
    pub log_rows: usize,
}

/// The panel with its texts as character sequences.
#[verifier::ext_equal]
pub struct SettingsView {
    pub tab: usize,
    pub cursor: usize,
    pub options: OptionsView,
    pub crawl: OptionsView,
    pub rules: Seq<RuleView>,
    pub editing_rule: Option<(usize, Seq<char>)>,
    pub channels: Seq<(Seq<char>, Seq<char>)>,
    pub editing_channel: Option<(usize, bool, Seq<char>)>,
    pub caret: usize,
    pub log_rows: usize,
}

impl View for Settings {
    type V = SettingsView;

    open spec fn view(&self) -> SettingsView {
        SettingsView {
            tab: self.tab,
            cursor: self.cursor,
            options: self.options@,
            crawl: self.crawl@,
            rules: rule_views(self.rules@),
            editing_rule: match self.editing_rule {
                Some((r, t)) => Some((r, t@)),
                None => None,
            },
            channels: channel_views(self.channels@),
            editing_channel: match self.editing_channel {
                Some((r, d, t)) => Some((r, d, t@)),
                None => None,
            },
            caret: self.caret,
            log_rows: self.log_rows,
        }
    }
}

// ---------------------------------------------------------------------------
// What a key does
// ---------------------------------------------------------------------------

/// The first row of rule `n`, held at the top.
pub open spec fn rule_start(n: nat) -> usize {
    if n * RULE_ROWS > usize::MAX {
        usize::MAX
    } else {
        (n * RULE_ROWS) as usize
    }
}

/// How many rows the shown tab has.
pub open spec fn rows_of(s: SettingsView) -> usize {
    if s.tab == 0 {
        GENERAL
    } else if s.tab == 1 {
        table(s.options.backend).len() as usize
    } else if s.tab == 2 {
        table(s.crawl.backend).len() as usize
    } else if s.tab == 3 {
        rule_start(s.rules.len())
    } else if s.tab == 4 {
        s.channels.len() as usize
    } else {
        s.log_rows
    }
}

/// The last row of the shown tab, or 0 when it has none.
pub open spec fn last_row(s: SettingsView) -> usize {
    if rows_of(s) > 0 {
        (rows_of(s) - 1) as usize
    } else {
        0
    }
}

/// The rule a categories row belongs to, and which of its fields the row
/// is: `None` for the header row that names the rule.
pub open spec fn rule_row(rules: Seq<RuleView>, row: usize) -> Option<(usize, Option<usize>)> {
    let at = row / RULE_ROWS;
    if at < rules.len() {
        Some((
            at as usize,
            if row % RULE_ROWS == 0 {
                None
            } else {
                Some((row % RULE_ROWS - 1) as usize)
            },
        ))
    } else {
        None
    }
}

/// A rule's field typed into and accepted; empty clears the field.
pub open spec fn accept_rule_of(s: SettingsView, row: usize, text: Seq<char>) -> SettingsView {
    match rule_row(s.rules, row) {
        Some((at, Some(f))) => SettingsView { rules: s.rules.update(at as int, set_of(s.rules[at as int], f as int, text)), ..s },
        _ => s,
    }
}

/// A channel's url or last-sync date typed into and accepted. The date is
/// stored the way yt-dlp reads one, however it was typed; an empty url
/// deletes the channel, as there is nothing left to sync.
pub open spec fn accept_channel_of(s: SettingsView, row: usize, is_date: bool, text: Seq<char>) -> SettingsView {
    if row >= s.channels.len() {
        s
    } else {
        let t = seqs::trim(text);
        let c = s.channels[row as int];
        let c2 = if is_date {
            (c.0, date_of(t))
        } else {
            (t, c.1)
        };
        if c2.0.len() == 0 {
            let s2 = SettingsView { channels: s.channels.remove(row as int), ..s };
            SettingsView { cursor: if row < last_row(s2) { row } else { last_row(s2) }, ..s2 }
        } else {
            SettingsView { channels: s.channels.update(row as int, c2), ..s }
        }
    }
}

/// The tab `delta` along, wrapping, with the cursor at its top.
pub open spec fn gone(s: SettingsView, forward: bool) -> SettingsView {
    SettingsView {
        tab: if forward {
            ((s.tab % 6 + 1) % 6) as usize
        } else {
            ((s.tab % 6 + 5) % 6) as usize
        },
        cursor: 0,
        ..s
    }
}

/// The backend the backends tab shows after `b`: aria2c, yt-dlp, wget, and
/// round again.
pub open spec fn next_tool(b: Seq<char>) -> Tool {
    if b == tool_name(Tool::Aria2) {
        Tool::YtDlp
    } else if b == tool_name(Tool::YtDlp) {
        Tool::Wget
    } else if b == tool_name(Tool::Wget) {
        Tool::Aria2
    } else {
        Tool::YtDlp
    }
}

/// A key given to the shown form, under the panel's cursor.
pub open spec fn form_key_of(o: OptionsView, cursor: usize, key: Key, mods: Mods) -> OptionsView {
    on_key_spec(OptionsView { cursor, ..o }, key, mods).0
}

/// A key on a row of the shown tab that is not a movement.
pub open spec fn act_of(s: SettingsView, key: Key, mods: Mods) -> (SettingsView, Action) {
    let row = s.cursor;
    if s.tab == 0 {
        (s, if row == 0 && (key == Key::Enter || key == Key::Char(' ')) {
            Action::NextTheme
        } else if row == 0 && key == Key::Char('T') {
            Action::PrevTheme
        } else if row == 1 && key == Key::Enter {
            Action::EditDir
        } else if row == 2 && (key == Key::Enter || key == Key::Char(' ')) {
            Action::ToggleNerd
        } else if row == 3 && (key == Key::Enter || key == Key::Char(' ')) {
            Action::ToggleConfirmPlaylist
        } else {
            Action::Nothing
        })
    } else if s.tab == 1 && key == Key::Char('b') {
        (s, Action::Backend(next_tool(s.options.backend)))
    } else if s.tab == 1 {
        (SettingsView { options: form_key_of(s.options, row, key, mods), ..s }, Action::Nothing)
    } else if s.tab == 2 {
        (SettingsView { crawl: form_key_of(s.crawl, row, key, mods), ..s }, Action::Nothing)
    } else if s.tab == 3 {
        if key == Key::Char('n') {
            let at = match rule_row(s.rules, row) {
                Some((a, _)) => a + 1,
                None => s.rules.len() as int,
            };
            (SettingsView { rules: s.rules.insert(at, empty_rule()), cursor: rule_start(at as nat), ..s }, Action::Nothing)
        } else if key == Key::Enter {
            (match rule_row(s.rules, row) {
                Some((at, Some(f))) => SettingsView { editing_rule: Some((row, get_of(s.rules[at as int], f as int))), ..s },
                _ => s,
            }, Action::Nothing)
        } else if key == Key::Char('x') || key == Key::Delete {
            (match rule_row(s.rules, row) {
                Some((at, Some(f))) => SettingsView { rules: s.rules.update(at as int, set_of(s.rules[at as int], f as int, seq![])), ..s },
                Some((at, None)) => {
                    let s2 = SettingsView { rules: s.rules.remove(at as int), ..s };
                    SettingsView { cursor: if row < last_row(s2) { row } else { last_row(s2) }, ..s2 }
                },
                None => s,
            }, Action::Nothing)
        } else {
            (s, Action::Nothing)
        }
    } else if s.tab == 4 {
        if key == Key::Char('n') {
            let at = if row + 1 < s.channels.len() { row + 1 } else { s.channels.len() as int };
            (SettingsView {
                channels: s.channels.insert(at, (seq![], seq![])),
                cursor: at as usize,
                editing_channel: Some((at as usize, false, seq![])),
                ..s
            }, Action::Nothing)
        } else if key == Key::Enter && row < s.channels.len() {
            (SettingsView { editing_channel: Some((row, false, s.channels[row as int].0)), ..s }, Action::Nothing)
        } else if key == Key::Char('d') && row < s.channels.len() {
            (SettingsView { editing_channel: Some((row, true, s.channels[row as int].1)), ..s }, Action::Nothing)
        } else if (key == Key::Char('x') || key == Key::Delete) && row < s.channels.len() {
            let s2 = SettingsView { channels: s.channels.remove(row as int), ..s };
            (SettingsView { cursor: if row < last_row(s2) { row } else { last_row(s2) }, ..s2 }, Action::Nothing)
        } else if key == Key::Char('s') && row < s.channels.len() {
            (s, Action::SyncChannel(row))
        } else if key == Key::Char('S') {
            (s, Action::SyncChannels)
        } else {
            (s, Action::Nothing)
        }
    } else if s.tab == 5 {
        if key == Key::Char('x') {
            (SettingsView { cursor: 0, ..s }, Action::ClearLog)
        } else if key == Key::Char('G') || key == Key::End {
            (SettingsView { cursor: last_row(s), ..s }, Action::Nothing)
        } else if key == Key::Char('g') || key == Key::Home {
            (SettingsView { cursor: 0, ..s }, Action::Nothing)
        } else {
            (s, Action::Nothing)
        }
    } else {
        (s, Action::Nothing)
    }
}

/// A key to the panel: an open field takes it first, then a form being
/// typed into, then the panel's own movement keys, then the row.
pub open spec fn act_on_of(s: SettingsView, key: Key, mods: Mods) -> (SettingsView, Action) {
    match s.editing_channel {
        Some((row, d, buf)) => {
            let (used, buf2, at2) = typed_into(buf, s.caret as int, key, mods);
            let s1 = SettingsView { editing_channel: None, caret: at2 as usize, ..s };
            (if used {
                SettingsView { editing_channel: Some((row, d, buf2)), ..s1 }
            } else if key == Key::Enter {
                accept_channel_of(s1, row, d, buf2)
            } else if key == Key::Esc {
                // A row added with `n` and never given a url is not a
                // channel, and must not be left behind.
                accept_channel_of(s1, row, false, if row < s.channels.len() { s.channels[row as int].0 } else { seq![] })
            } else {
                SettingsView { editing_channel: Some((row, d, buf2)), ..s1 }
            }, Action::Nothing)
        },
        None => match s.editing_rule {
            Some((row, buf)) => {
                let (used, buf2, at2) = typed_into(buf, s.caret as int, key, mods);
                let s1 = SettingsView { editing_rule: None, caret: at2 as usize, ..s };
                (if used {
                    SettingsView { editing_rule: Some((row, buf2)), ..s1 }
                } else if key == Key::Enter {
                    accept_rule_of(s1, row, buf2)
                } else if key == Key::Esc {
                    s1
                } else {
                    SettingsView { editing_rule: Some((row, buf2)), ..s1 }
                }, Action::Nothing)
            },
            None => if s.tab == 1 && s.options.editing is Some {
                (SettingsView { options: form_key_of(s.options, s.cursor, key, mods), ..s }, Action::Nothing)
            } else if s.tab == 2 && s.crawl.editing is Some {
                (SettingsView { crawl: form_key_of(s.crawl, s.cursor, key, mods), ..s }, Action::Nothing)
            } else if key == Key::Esc || key == Key::Char('q') {
                (s, Action::Close)
            } else if key == Key::Tab || key == Key::Right || key == Key::Char('l') {
                (gone(s, true), Action::Nothing)
            } else if key == Key::BackTab || key == Key::Left || key == Key::Char('h') {
                (gone(s, false), Action::Nothing)
            } else if key == Key::Down || key == Key::Char('j') {
                (SettingsView { cursor: if s.cursor < last_row(s) { (s.cursor + 1) as usize } else { last_row(s) }, ..s }, Action::Nothing)
            } else if key == Key::Up || key == Key::Char('k') {
                (SettingsView { cursor: if s.cursor > 0 { (s.cursor - 1) as usize } else { 0 }, ..s }, Action::Nothing)
            } else {
                act_of(s, key, mods)
            },
        },
    }
}

/// Some field of the panel is being typed into.
pub open spec fn editing_of(s: SettingsView) -> bool {
    s.editing_rule is Some || s.editing_channel is Some || s.options.editing is Some || s.crawl.editing is Some
}

/// One key to the panel; whichever field just opened starts with its caret
/// at the end.
pub open spec fn settings_step(s: SettingsView, key: Key, mods: Mods) -> (SettingsView, Action) {
    let (s2, a) = act_on_of(s, key, mods);
    if !editing_of(s) && editing_of(s2) {
        (SettingsView { caret: usize::MAX, ..s2 }, a)
    } else {
        (s2, a)
    }
}


// ---------------------------------------------------------------------------
// The panel
// ---------------------------------------------------------------------------

impl Settings {
    /// The panel on a tab, over the flags saved for a backend and for the
    /// crawler, the rules, the channels, and a log of `log_rows` lines.
    pub fn open(
        tab: usize,
        backend: &'static str,
        backend_args: &[String],
        crawl_args: &[String],
        rules: Vec<Rule>,
        channels: Vec<Channel>,
        log_rows: usize,
    ) -> (r: Settings)
        ensures
            r.tab == tab,
            r.cursor == 0,
            r@.options == opened(backend@, backend_args@),
            r@.crawl == opened("crawl"@, crawl_args@),
            r.rules@ == rules@,
            r.channels@ == channels@,
            r.editing_rule is None,
            r.editing_channel is None,
            r.caret == usize::MAX,
            r.log_rows == log_rows,
    {
        Settings {
            tab,
            cursor: 0,
            options: Options::open(backend, backend_args),
            crawl: Options::open("crawl", crawl_args),
            rules,
            editing_rule: None,
            channels,
            editing_channel: None,
            caret: usize::MAX,
            log_rows,
        }
    }

    /// How many rows the shown tab has.
    pub fn rows(&self) -> (r: usize)
        ensures
            r == rows_of(self@),
    {
        if self.tab == 0 {
            GENERAL
        } else if self.tab == 1 {
            self.options.specs().len()
        } else if self.tab == 2 {
            self.crawl.specs().len()
        } else if self.tab == 3 {
            proof {
                assert(self@.rules.len() == self.rules@.len());
            }
            if self.rules.len() > usize::MAX / RULE_ROWS { usize::MAX } else { self.rules.len() * RULE_ROWS }
        } else if self.tab == 4 {
            proof {
                assert(self@.channels.len() == self.channels@.len());
            }
            self.channels.len()
        } else {
            self.log_rows
        }
    }

    fn last(&self) -> (r: usize)
        ensures
            r == last_row(self@),
    {
        let n = self.rows();
        if n > 0 { n - 1 } else { 0 }
    }

    /// The rule a categories row belongs to, and which of its fields the row
    /// is; `None` for the header row that names the rule.
    pub fn row_at(&self, row: usize) -> (r: Option<(usize, Option<usize>)>)
        ensures
            r == rule_row(self@.rules, row),
    {
        let at = row / RULE_ROWS;
        if at < self.rules.len() {
            Some((at, if row % RULE_ROWS == 0 { None } else { Some(row % RULE_ROWS - 1) }))
        } else {
            None
        }
    }

    /// Is any field of the panel being typed into?
    pub fn editing(&self) -> (r: bool)
        ensures
            r == editing_of(self@),
    {
        self.editing_rule.is_some() || self.editing_channel.is_some() || self.options.editing.is_some()
            || self.crawl.editing.is_some()
    }

    /// Show another backend's flags, read from its file; the caller saved
    /// the form shown before.
    pub fn show_backend(&mut self, backend: &'static str, saved: &[String])
        ensures
            final(self)@ == (SettingsView { options: opened(backend@, saved@), cursor: 0, ..old(self)@ }),
    {
        self.options = Options::open(backend, saved);
        self.cursor = 0;
    }

    fn accept_rule(&mut self, row: usize, text: &str)
        ensures
            final(self)@ == accept_rule_of(old(self)@, row, text@),
    {
        match self.row_at(row) {
            Some((at, Some(field))) => {
                let mut r = self.rules.remove(at);
                r.set(field, text);
                self.rules.insert(at, r);
                proof {
                    assert(rule_views(self.rules@) =~= old(self)@.rules.update(at as int, set_of(old(self)@.rules[at as int], field as int, text@)));
                    assert(self@ =~= accept_rule_of(old(self)@, row, text@));
                }
            },
            _ => {},
        }
    }

    fn accept_channel(&mut self, row: usize, is_date: bool, text: &str)
        ensures
            final(self)@ == accept_channel_of(old(self)@, row, is_date, text@),
    {
        if row >= self.channels.len() {
            return;
        }
        let t = text::string_of(text::trim(text::chars_of(text).as_slice()).as_slice());
        let mut c = self.channels.remove(row);
        if is_date {
            c.last_sync = date(t.as_str());
        } else {
            c.url = t;
        }
        if c.url.as_str().is_empty() {
            proof {
                assert(channel_views(self.channels@) =~= old(self)@.channels.remove(row as int));
            }
            let last = self.last();
            self.cursor = if row < last { row } else { last };
            proof {
                assert(self@ =~= accept_channel_of(old(self)@, row, is_date, text@));
            }
        } else {
            self.channels.insert(row, c);
            proof {
                let cv = old(self)@.channels[row as int];
                let t2 = seqs::trim(text@);
                let c2 = if is_date { (cv.0, date_of(t2)) } else { (t2, cv.1) };
                assert(channel_views(self.channels@) =~= old(self)@.channels.update(row as int, c2));
                assert(self@ =~= accept_channel_of(old(self)@, row, is_date, text@));
            }
        }
    }

    fn go(&mut self, forward: bool)
        ensures
            final(self)@ == gone(old(self)@, forward),
    {
        let t = self.tab % 6;
        self.tab = if forward { (t + 1) % 6 } else { (t + 5) % 6 };
        self.cursor = 0;
    }
}

/// The backend after this one, for the `b` key.
fn tool_after(backend: &str) -> (r: Tool)
    ensures
        r == next_tool(backend@),
{
    let b = text::chars_of(backend);
    if text::same(b.as_slice(), text::chars_of("aria2c").as_slice()) {
        Tool::YtDlp
    } else if text::same(b.as_slice(), text::chars_of("yt-dlp").as_slice()) {
        Tool::Wget
    } else if text::same(b.as_slice(), text::chars_of("wget").as_slice()) {
        Tool::Aria2
    } else {
        Tool::YtDlp
    }
}


impl Settings {
    fn form_key(&mut self, crawl: bool, key: Key, mods: Mods)
        ensures
            crawl ==> final(self)@ == (SettingsView { crawl: form_key_of(old(self)@.crawl, old(self).cursor, key, mods), ..old(self)@ }),
            !crawl ==> final(self)@ == (SettingsView { options: form_key_of(old(self)@.options, old(self).cursor, key, mods), ..old(self)@ }),
    {
        if crawl {
            self.crawl.cursor = self.cursor;
            let _ = self.crawl.on_key_with(key, mods);
        } else {
            self.options.cursor = self.cursor;
            let _ = self.options.on_key_with(key, mods);
        }
        proof {
            assert(self@ =~= (if crawl {
                SettingsView { crawl: form_key_of(old(self)@.crawl, old(self).cursor, key, mods), ..old(self)@ }
            } else {
                SettingsView { options: form_key_of(old(self)@.options, old(self).cursor, key, mods), ..old(self)@ }
            }));
        }
    }

    fn act_general(&self, key: Key, mods: Mods) -> (a: Action)
        requires
            self.tab == 0,
        ensures
            (self@, a) == act_of(self@, key, mods),
    {
        let row = self.cursor;
        let enter = match key { Key::Enter => true, _ => false };
        let space = match key { Key::Char(' ') => true, _ => false };
        let big_t = match key { Key::Char('T') => true, _ => false };
        if row == 0 && (enter || space) {
            Action::NextTheme
        } else if row == 0 && big_t {
            Action::PrevTheme
        } else if row == 1 && enter {
            Action::EditDir
        } else if row == 2 && (enter || space) {
            Action::ToggleNerd
        } else if row == 3 && (enter || space) {
            Action::ToggleConfirmPlaylist
        } else {
            Action::Nothing
        }
    }

    fn act_rules(&mut self, key: Key, mods: Mods)
        requires
            old(self).tab == 3,
        ensures
            (final(self)@, Action::Nothing) == act_of(old(self)@, key, mods),
    {
        let row = self.cursor;
        match key {
            Key::Char('n') => {
                let at = match self.row_at(row) {
                    Some((a, _)) => a + 1,
                    None => self.rules.len(),
                };
                self.rules.insert(at, Rule::empty());
                self.cursor = if at > usize::MAX / RULE_ROWS { usize::MAX } else { at * RULE_ROWS };
                proof {
                    assert(rule_views(self.rules@) =~= old(self)@.rules.insert(at as int, empty_rule()));
                    assert(self@ =~= act_of(old(self)@, key, mods).0);
                }
            },
            Key::Enter => {
                match self.row_at(row) {
                    Some((at, Some(f))) => {
                        self.editing_rule = Some((row, self.rules[at].get(f)));
                        proof {
                            assert(self@ =~= act_of(old(self)@, key, mods).0);
                        }
                    },
                    _ => {},
                }
            },
            Key::Char('x') | Key::Delete => {
                match self.row_at(row) {
                    Some((at, Some(f))) => {
                        let mut r = self.rules.remove(at);
                        r.set(f, "");
                        self.rules.insert(at, r);
                        proof {
                            reveal_strlit("");
                            assert(""@ =~= Seq::<char>::empty());
                            assert(rule_views(self.rules@) =~= old(self)@.rules.update(at as int, set_of(old(self)@.rules[at as int], f as int, seq![])));
                            assert(self@ =~= act_of(old(self)@, key, mods).0);
                        }
                    },
                    Some((at, None)) => {
                        self.rules.remove(at);
                        proof {
                            assert(rule_views(self.rules@) =~= old(self)@.rules.remove(at as int));
                        }
                        let last = self.last();
                        self.cursor = if row < last { row } else { last };
                        proof {
                            assert(self@ =~= act_of(old(self)@, key, mods).0);
                        }
                    },
                    None => {},
                }
            },
            _ => {},
        }
    }

    fn act_channels(&mut self, key: Key, mods: Mods) -> (a: Action)
        requires
            old(self).tab == 4,
        ensures
            (final(self)@, a) == act_of(old(self)@, key, mods),
    {
        let row = self.cursor;
        let n = self.channels.len();
        match key {
            Key::Char('n') => {
                let at = if row < n { row + 1 } else { n };
                self.channels.insert(at, Channel { url: String::new(), last_sync: String::new() });
                self.cursor = at;
                self.editing_channel = Some((at, false, String::new()));
                proof {
                    assert(channel_views(self.channels@) =~= old(self)@.channels.insert(at as int, (seq![], seq![])));
                    assert(self@ =~= act_of(old(self)@, key, mods).0);
                }
                return Action::Nothing;
            },
            Key::Enter => {
                if row < n {
                    self.editing_channel = Some((row, false, text::string_of(text::chars_of(self.channels[row].url.as_str()).as_slice())));
                    proof {
                        assert(self@ =~= act_of(old(self)@, key, mods).0);
                    }
                }
                return Action::Nothing;
            },
            Key::Char('d') => {
                if row < n {
                    self.editing_channel = Some((row, true, text::string_of(text::chars_of(self.channels[row].last_sync.as_str()).as_slice())));
                    proof {
                        assert(self@ =~= act_of(old(self)@, key, mods).0);
                    }
                }
                return Action::Nothing;
            },
            Key::Char('x') | Key::Delete => {
                if row < n {
                    self.channels.remove(row);
                    proof {
                        assert(channel_views(self.channels@) =~= old(self)@.channels.remove(row as int));
                    }
                    let last = self.last();
                    self.cursor = if row < last { row } else { last };
                    proof {
                        assert(self@ =~= act_of(old(self)@, key, mods).0);
                    }
                }
                return Action::Nothing;
            },
            Key::Char('s') => {
                return if row < n { Action::SyncChannel(row) } else { Action::Nothing };
            },
            Key::Char('S') => {
                return Action::SyncChannels;
            },
            _ => {
                return Action::Nothing;
            },
        }
    }

    fn act_log(&mut self, key: Key, mods: Mods) -> (a: Action)
        requires
            old(self).tab == 5,
        ensures
            (final(self)@, a) == act_of(old(self)@, key, mods),
    {
        match key {
            Key::Char('x') => {
                self.cursor = 0;
                return Action::ClearLog;
            },
            Key::Char('G') | Key::End => {
                self.cursor = self.last();
            },
            Key::Char('g') | Key::Home => {
                self.cursor = 0;
            },
            _ => {},
        }
        return Action::Nothing;
    }

    fn act(&mut self, key: Key, mods: Mods) -> (a: Action)
        ensures
            (final(self)@, a) == act_of(old(self)@, key, mods),
    {
        if self.tab == 0 {
            return self.act_general(key, mods);
        }
        if self.tab == 1 {
            if let Key::Char('b') = key {
                return Action::Backend(tool_after(self.options.backend));
            }
            self.form_key(false, key, mods);
            return Action::Nothing;
        }
        if self.tab == 2 {
            self.form_key(true, key, mods);
            return Action::Nothing;
        }
        if self.tab == 3 {
            self.act_rules(key, mods);
            return Action::Nothing;
        }
        if self.tab == 4 {
            return self.act_channels(key, mods);
        }
        if self.tab == 5 {
            return self.act_log(key, mods);
        }
        Action::Nothing
    }

    fn act_on(&mut self, key: Key, mods: Mods) -> (a: Action)
        ensures
            (final(self)@, a) == act_on_of(old(self)@, key, mods),
    {
        let mut open_channel: Option<(usize, bool, String)> = None;
        std::mem::swap(&mut open_channel, &mut self.editing_channel);
        match open_channel {
            Some((row, d, buf)) => {
                let mut buf = buf;
                let used = edit::key(&mut buf, &mut self.caret, key, mods);
                if used {
                    self.editing_channel = Some((row, d, buf));
                    proof {
                        assert(self@ =~= act_on_of(old(self)@, key, mods).0);
                    }
                    return Action::Nothing;
                }
                match key {
                    Key::Enter => {
                        self.accept_channel(row, d, buf.as_str());
                    },
                    Key::Esc => {
                        let url = if row < self.channels.len() {
                            text::string_of(text::chars_of(self.channels[row].url.as_str()).as_slice())
                        } else {
                            String::new()
                        };
                        self.accept_channel(row, false, url.as_str());
                    },
                    _ => {
                        self.editing_channel = Some((row, d, buf));
                        proof {
                            assert(self@ =~= act_on_of(old(self)@, key, mods).0);
                        }
                    },
                }
                return Action::Nothing;
            },
            None => {},
        }
        let mut open_rule: Option<(usize, String)> = None;
        std::mem::swap(&mut open_rule, &mut self.editing_rule);
        match open_rule {
            Some((row, buf)) => {
                let mut buf = buf;
                let used = edit::key(&mut buf, &mut self.caret, key, mods);
                if used {
                    self.editing_rule = Some((row, buf));
                    proof {
                        assert(self@ =~= act_on_of(old(self)@, key, mods).0);
                    }
                    return Action::Nothing;
                }
                match key {
                    Key::Enter => {
                        self.accept_rule(row, buf.as_str());
                    },
                    Key::Esc => {
                        proof {
                            assert(self@ =~= act_on_of(old(self)@, key, mods).0);
                        }
                    },
                    _ => {
                        self.editing_rule = Some((row, buf));
                        proof {
                            assert(self@ =~= act_on_of(old(self)@, key, mods).0);
                        }
                    },
                }
                return Action::Nothing;
            },
            None => {},
        }
        proof {
            assert(self@ =~= old(self)@);
        }
        if self.tab == 1 && self.options.editing.is_some() {
            self.form_key(false, key, mods);
            return Action::Nothing;
        }
        if self.tab == 2 && self.crawl.editing.is_some() {
            self.form_key(true, key, mods);
            return Action::Nothing;
        }
        match key {
            Key::Esc | Key::Char('q') => Action::Close,
            Key::Tab | Key::Right | Key::Char('l') => {
                self.go(true);
                Action::Nothing
            },
            Key::BackTab | Key::Left | Key::Char('h') => {
                self.go(false);
                Action::Nothing
            },
            Key::Down | Key::Char('j') => {
                let last = self.last();
                self.cursor = if self.cursor < last { self.cursor + 1 } else { last };
                Action::Nothing
            },
            Key::Up | Key::Char('k') => {
                self.cursor = if self.cursor > 0 { self.cursor - 1 } else { 0 };
                Action::Nothing
            },
            _ => self.act(key, mods),
        }
    }

    /// One key with its modifiers. What only the app can do comes back as
    /// an action.
    pub fn on_key_with(&mut self, key: Key, mods: Mods) -> (a: Action)
        ensures
            (final(self)@, a) == settings_step(old(self)@, key, mods),
    {
        let was = self.editing();
        let a = self.act_on(key, mods);
        if !was && self.editing() {
            self.caret = usize::MAX;
        }
        a
    }

    /// One key.
    pub fn on_key(&mut self, key: Key) -> (a: Action)
        ensures
            (final(self)@, a) == settings_step(old(self)@, key, Mods { ctrl: false, alt: false }),
    {
        self.on_key_with(key, Mods { ctrl: false, alt: false })
    }
}

} // verus!
