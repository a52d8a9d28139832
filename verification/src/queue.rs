//! Queues: named lanes with their own concurrency limit, and the schedules
//! that decide when each one runs.
use vstd::prelude::*;

use crate::parse;
use crate::seqs;
use crate::text;
use crate::utils::digit_run;

verus! {

/// A named lane with its own concurrency limit. Downloads reference a queue
/// by `id`, so renaming or reordering queues never touches the downloads.
#[derive(Debug, Clone, PartialEq)]
pub struct Queue {
    pub id: usize,
    pub name: String,
    pub max_active: usize,
    /// While set, nothing in this queue starts.
    pub paused: bool,
    /// Daily active window as local minutes-of-day, `(start, end)`. Inside it
    /// the queue runs, outside it the queue is paused; `None` means always on.
    pub schedule: Option<(u16, u16)>,
    /// Weekdays the window applies to, bit 0 = Monday. `0` means every day.
    pub days: u8,
    /// Single calendar date, `YYYY-MM-DD`; the queue runs on that day only.
    pub date: Option<String>,
    /// Run through once, then pause and drop the schedule.
    pub once: bool,
    /// Requeue everything finished this often, in minutes.
    pub sync: Option<u32>,
    /// How often a failed download in this queue is retried before it sticks.
    pub retry: u8,
    /// Shell command run once the queue drains.
    pub after: String,
    /// Shut the machine down once the queue drains.
    pub shutdown: bool,
    /// `(bytes, minutes)`: at most this much traffic per period.
    pub quota: Option<(u64, u32)>,
    /// The schedule as typed; the file and the dialog both use this text.
    pub spec: String,
    /// Bytes spent in the current quota period. Resets with the period and
    /// does not survive a restart.
    pub used: u64,
    /// Whether the drain actions already fired.
    pub fired: bool,
}

/// A queue with its texts as character sequences.
#[verifier::ext_equal]
pub struct QueueView {
    pub id: usize,
    pub name: Seq<char>,
    pub max_active: usize,
    pub paused: bool,
    pub schedule: Option<(u16, u16)>,
    pub days: u8,
    pub date: Option<Seq<char>>,
    pub once: bool,
    pub sync: Option<u32>,
    pub retry: u8,
    pub after: Seq<char>,
    pub shutdown: bool,
    pub quota: Option<(u64, u32)>,
    pub spec: Seq<char>,
    pub used: u64,
    pub fired: bool,
}

impl View for Queue {
    type V = QueueView;

    open spec fn view(&self) -> QueueView {
        QueueView {
            id: self.id,
            name: self.name@,
            max_active: self.max_active,
            paused: self.paused,
            schedule: self.schedule,
            days: self.days,
            date: match self.date {
                Some(d) => Some(d@),
                None => None,
            },
            once: self.once,
            sync: self.sync,
            retry: self.retry,
            after: self.after@,
            shutdown: self.shutdown,
            quota: self.quota,
            spec: self.spec@,
            used: self.used,
            fired: self.fired,
        }
    }
}

/// The queue every download lands in unless another is selected. Always exists.
pub const DEFAULT: usize = 0;

/// Local time as the schedule sees it: minutes-of-day, ISO weekday
/// (1 = Monday) and calendar date.
pub struct Now {
    pub minutes: u16,
    pub weekday: u8,
    pub date: String,
}

/// A fresh queue: its name trimmed, between one and sixteen slots, and no
/// schedule, pause or history.
pub open spec fn fresh(id: usize, name: Seq<char>, max_active: usize) -> QueueView {
    QueueView {
        id,
        name: seqs::trim(name),
        max_active: if max_active < 1 {
            1
        } else if max_active > 16 {
            16
        } else {
            max_active
        },
        paused: false,
        schedule: None,
        days: 0,
        date: None,
        once: false,
        sync: None,
        retry: 0,
        after: seq![],
        shutdown: false,
        quota: None,
        spec: seq![],
        used: 0,
        fired: false,
    }
}

/// Inside a daily window. One whose end is not after its start wraps past
/// midnight (`22:00-06:00`).
pub open spec fn in_window(schedule: Option<(u16, u16)>, now: u16) -> bool {
    match schedule {
        None => true,
        Some((start, end)) => if start <= end {
            start <= now < end
        } else {
            now >= start || now < end
        },
    }
}

/// The weekday bit the schedule keeps for an ISO weekday.
pub open spec fn weekday_bit(weekday: u8) -> u8 {
    (1u8 << (if weekday >= 1 { (weekday - 1) as u8 } else { 0u8 })) as u8
}

/// The full test: date, weekdays, quota and window.
pub open spec fn open_spec(q: QueueView, now_minutes: u16, now_weekday: u8, now_date: Seq<char>) -> bool {
    &&& (q.date matches Some(d) ==> d == now_date)
    &&& (q.days == 0 || q.days & weekday_bit(now_weekday) != 0)
    &&& (q.quota matches Some((bytes, _)) ==> q.used < bytes)
    &&& in_window(q.schedule, now_minutes)
}

/// Minutes of the day as `HH:MM`.
pub open spec fn hhmm(m: u16) -> Seq<char> {
    seqs::padded((m / 60) as int, 2) + seq![':'] + seqs::padded((m % 60) as int, 2)
}

/// The schedule as the file and the dialog hold it.
pub open spec fn window_text(q: QueueView) -> Seq<char> {
    if q.spec.len() > 0 {
        q.spec
    } else {
        match q.schedule {
            Some((start, end)) => hhmm(start) + seq!['-'] + hhmm(end),
            None => seq![],
        }
    }
}

fn hhmm_of(m: u16) -> (r: Vec<char>)
    ensures
        r@ == hhmm(m),
{
    let mut v = text::padded((m / 60) as i64, 2);
    v.push(':');
    text::push_all(&mut v, text::padded((m % 60) as i64, 2).as_slice());
    v
}

/// Scheduled at all: by window, date, quota or weekdays.
pub open spec fn scheduled_spec(q: QueueView) -> bool {
    q.schedule is Some || q.date is Some || q.quota is Some || q.days != 0
}

impl Queue {
    pub fn new(id: usize, name: &str, max_active: usize) -> (r: Queue)
        ensures
            r@ == fresh(id, name@, max_active),
    {
        Queue {
            id,
            name: text::string_of(text::trim(text::chars_of(name).as_slice()).as_slice()),
            max_active: if max_active < 1 {
                1
            } else if max_active > 16 {
                16
            } else {
                max_active
            },
            paused: false,
            schedule: None,
            days: 0,
            date: None,
            once: false,
            sync: None,
            retry: 0,
            after: String::new(),
            shutdown: false,
            quota: None,
            spec: String::new(),
            used: 0,
            fired: false,
        }
    }

    /// True when `now` (local minutes-of-day) is in the window.
    pub fn open_at(&self, now: u16) -> (r: bool)
        ensures
            r == in_window(self.schedule, now),
    {
        match self.schedule {
            None => true,
            Some((start, end)) => if start <= end {
                start <= now && now < end
            } else {
                now >= start || now < end
            },
        }
    }

    /// The full test: window, weekdays, date and quota. A queue with no
    /// schedule at all is always open.
    pub fn open_now(&self, now: &Now) -> (r: bool)
        requires
            now.weekday <= 8,
        ensures
            r == open_spec(self@, now.minutes, now.weekday, now.date@),
    {
        match &self.date {
            Some(d) => {
                if !text::same(text::chars_of(d.as_str()).as_slice(), text::chars_of(now.date.as_str()).as_slice()) {
                    return false;
                }
            },
            None => {},
        }
        let k: u8 = if now.weekday >= 1 { now.weekday - 1 } else { 0 };
        let bit: u8 = 1u8 << k;
        if self.days != 0 && self.days & bit == 0 {
            return false;
        }
        match self.quota {
            Some((bytes, _)) => {
                if self.used >= bytes {
                    return false;
                }
            },
            None => {},
        }
        self.open_at(now.minutes)
    }

    /// True when this queue is scheduled at all, so hand pauses on an
    /// unscheduled queue are never overridden.
    pub fn scheduled(&self) -> (r: bool)
        ensures
            r == scheduled_spec(self@),
    {
        self.schedule.is_some() || self.date.is_some() || self.quota.is_some() || self.days != 0
    }

    /// The schedule as typed, for the file and the UI; a window set without
    /// being typed reads as `HH:MM-HH:MM`, and no schedule as nothing.
    pub fn window(&self) -> (r: String)
        ensures
            r@ == window_text(self@),
    {
        if !self.spec.as_str().is_empty() {
            return self.spec.clone();
        }
        match self.schedule {
            Some((start, end)) => {
                let mut v = hhmm_of(start);
                v.push('-');
                text::push_all(&mut v, hhmm_of(end).as_slice());
                text::string_of(v.as_slice())
            },
            None => String::new(),
        }
    }

    /// A copy of the queue.
    pub fn copy(&self) -> (r: Queue)
        ensures
            r@ == self@,
    {
        Queue {
            id: self.id,
            name: self.name.clone(),
            max_active: self.max_active,
            paused: self.paused,
            schedule: self.schedule,
            days: self.days,
            date: match &self.date {
                Some(d) => Some(d.clone()),
                None => None,
            },
            once: self.once,
            sync: self.sync,
            retry: self.retry,
            after: self.after.clone(),
            shutdown: self.shutdown,
            quota: self.quota,
            spec: self.spec.clone(),
            used: self.used,
            fired: self.fired,
        }
    }
}

// ---------------------------------------------------------------------------
// Reading a schedule
// ---------------------------------------------------------------------------

/// `HH:MM` as minutes of the day.
pub open spec fn clock_of(s: Seq<char>) -> Option<u16> {
    match seqs::split_once(seqs::trim(s), seq![':']) {
        Some((h, m)) => match (
            seqs::parse_unsigned(seqs::trim(h), 0xffff),
            seqs::parse_unsigned(seqs::trim(m), 0xffff),
        ) {
            (Some(h), Some(m)) => if h < 24 && m < 60 {
                Some((h * 60 + m) as u16)
            } else {
                None
            },
            _ => None,
        },
        None => None,
    }
}

/// `HH:MM-HH:MM`; empty, malformed or empty windows give nothing.
pub open spec fn window_of(text: Seq<char>) -> Option<(u16, u16)> {
    match seqs::split_once(seqs::trim(text), seq!['-']) {
        Some((a, b)) => match (clock_of(a), clock_of(b)) {
            (Some(start), Some(end)) => if start != end {
                Some((start, end))
            } else {
                None
            },
            _ => None,
        },
        None => None,
    }
}

fn clock(s: &[char]) -> (r: Option<u16>)
    ensures
        r == clock_of(s@),
{
    let t = text::trim(s);
    match text::split_once(t.as_slice(), text::one(':').as_slice()) {
        Some((h, m)) => {
            let h = text::parse_unsigned(text::trim(h.as_slice()).as_slice(), 0xffff);
            let m = text::parse_unsigned(text::trim(m.as_slice()).as_slice(), 0xffff);
            match (h, m) {
                (Some(h), Some(m)) => if h < 24 && m < 60 {
                    Some((h * 60 + m) as u16)
                } else {
                    None
                },
                _ => None,
            }
        },
        None => None,
    }
}

/// `HH:MM-HH:MM`; empty or malformed clears the window rather than guessing,
/// and so does an empty window, which would pause the queue forever.
pub fn parse_window(text: &str) -> (r: Option<(u16, u16)>)
    ensures
        r == window_of(text@),
        r matches Some((start, end)) ==> start != end && start < 1440 && end < 1440,
{
    let t = text::trim(text::chars_of(text).as_slice());
    match text::split_once(t.as_slice(), text::one('-').as_slice()) {
        Some((a, b)) => match (clock(a.as_slice()), clock(b.as_slice())) {
            (Some(start), Some(end)) => if start != end {
                Some((start, end))
            } else {
                None
            },
            _ => None,
        },
        None => None,
    }
}

/// Local time as `date '+%H:%M %u %F'` prints it.
pub open spec fn now_of(text: Seq<char>) -> Option<(u16, u8, Seq<char>)> {
    let ws = seqs::words(text);
    if ws.len() < 3 {
        None
    } else {
        match seqs::split_once(ws[0], seq![':']) {
            Some((h, m)) => match (
                seqs::parse_unsigned(h, 0xffff),
                seqs::parse_unsigned(m, 0xffff),
                seqs::parse_unsigned(ws[1], 0xff),
            ) {
                (Some(h), Some(m), Some(w)) => if h < 24 && m < 60 && 1 <= w <= 7 {
                    Some(((h * 60 + m) as u16, w as u8, ws[2]))
                } else {
                    None
                },
                _ => None,
            },
            None => None,
        }
    }
}

/// Local time from what `date '+%H:%M %u %F'` printed. `None` leaves every
/// schedule open.
pub fn parse_now(text: &str) -> (r: Option<Now>)
    ensures
        match now_of(text@) {
            Some((m, w, d)) => r matches Some(n) && n.minutes == m && n.weekday == w && n.date@ == d,
            None => r is None,
        },
{
    let ws = text::words(text::chars_of(text).as_slice());
    if ws.len() < 3 {
        return None;
    }
    match text::split_once(ws[0].as_slice(), text::one(':').as_slice()) {
        Some((h, m)) => {
            let h = text::parse_unsigned(h.as_slice(), 0xffff);
            let m = text::parse_unsigned(m.as_slice(), 0xffff);
            let w = text::parse_unsigned(ws[1].as_slice(), 0xff);
            match (h, m, w) {
                (Some(h), Some(m), Some(w)) => if h < 24 && m < 60 && 1 <= w && w <= 7 {
                    Some(
                        Now {
                            minutes: (h * 60 + m) as u16,
                            weekday: w as u8,
                            date: text::string_of(ws[2].as_slice()),
                        },
                    )
                } else {
                    None
                },
                _ => None,
            }
        },
        None => None,
    }
}

/// Local minutes-of-day from what `date '+%H:%M %u %F'` printed. `None`
/// leaves every schedule open.
pub fn now_minutes(text: &str) -> (r: Option<u16>)
    ensures
        match now_of(text@) {
            Some((m, _, _)) => r == Some(m),
            None => r is None,
        },
{
    match parse_now(text) {
        Some(n) => Some(n.minutes),
        None => None,
    }
}

// ---------------------------------------------------------------------------
// The schedule line
// ---------------------------------------------------------------------------

/// `1h`, `30m`, `2d` in minutes: digits, then one unit letter. Nothing for
/// zero, or for more minutes than a `u32` holds.
pub open spec fn every_of(text: Seq<char>) -> Option<u32> {
    let t = seqs::trim(text);
    let k = digit_run(t);
    if k >= t.len() {
        None
    } else {
        match seqs::parse_unsigned(t.take(k as int), 0xffff_ffff) {
            None => None,
            Some(n) => {
                let unit = t.skip(k as int);
                let m: int = if unit == seq!['m'] {
                    n as int
                } else if unit == seq!['h'] {
                    (n * 60) as int
                } else if unit == seq!['d'] {
                    (n * 1440) as int
                } else {
                    0
                };
                if 0 < m <= 0xffff_ffff {
                    Some(m as u32)
                } else {
                    None
                }
            },
        }
    }
}

/// Every character lowercased, ASCII only.
pub open spec fn lower_all(s: Seq<char>) -> Seq<char> {
    s.map_values(|c: char| seqs::ascii_lower(c))
}

/// The bytes a size unit stands for: `K`, `M`, `G`, any case, with or
/// without `B`; no unit at all is bytes.
pub open spec fn size_scale(unit: Seq<char>) -> Option<nat> {
    let u = parse::trim_end_str(lower_all(unit), seq!['b']);
    if u == seq!['k'] {
        Some(1024)
    } else if u == seq!['m'] {
        Some(1024 * 1024)
    } else if u == seq!['g'] {
        Some(1024 * 1024 * 1024)
    } else if u.len() == 0 {
        Some(1)
    } else {
        None
    }
}

/// `150MB`, `2G`, `900K` as whole bytes, rounded down; nothing for zero, and
/// nothing without a unit after the number.
pub open spec fn quota_size_of(text: Seq<char>) -> Option<u64> {
    let t = seqs::trim(text);
    let k = parse::number_end(t);
    if k >= t.len() {
        None
    } else {
        match size_scale(t.skip(k as int)) {
            None => None,
            Some(scale) => match parse::times_scale(t.take(k as int), scale) {
                Some(b) => if b > 0 {
                    Some(b)
                } else {
                    None
                },
                None => None,
            },
        }
    }
}

/// `size/every`, as a quota.
pub open spec fn quota_of(text: Seq<char>) -> Option<(u64, u32)> {
    match seqs::split_once(text, seq!['/']) {
        Some((size, every)) => match (quota_size_of(size), every_of(every)) {
            (Some(b), Some(m)) => Some((b, m)),
            _ => None,
        },
        None => None,
    }
}

/// The weekdays' names, Monday first.
pub open spec fn day_name(i: int) -> Seq<char> {
    if i == 0 {
        "mon"@
    } else if i == 1 {
        "tue"@
    } else if i == 2 {
        "wed"@
    } else if i == 3 {
        "thu"@
    } else if i == 4 {
        "fri"@
    } else if i == 5 {
        "sat"@
    } else {
        "sun"@
    }
}

/// The first weekday at or after `i` with this name.
pub open spec fn day_from(name: Seq<char>, i: int) -> Option<int>
    decreases 7 - i,
{
    if i >= 7 || i < 0 {
        None
    } else if day_name(i) == name {
        Some(i)
    } else {
        day_from(name, i + 1)
    }
}

/// The weekday with this name.
pub open spec fn day_index(name: Seq<char>) -> Option<int> {
    day_from(name, 0)
}

/// `d` lies in `from..=to`; a range that wraps the week (`sat-tue`) still
/// means both ends.
pub open spec fn in_day_range(d: int, from: int, to: int) -> bool {
    if from <= to {
        from <= d <= to
    } else {
        d >= from || d <= to
    }
}

/// One comma-separated part names weekday `d`: `mon` or `mon-fri`.
pub open spec fn part_has(part: Seq<char>, d: int) -> bool {
    match seqs::split_once(part, seq!['-']) {
        Some((f, t)) => match (day_index(f), day_index(t)) {
            (Some(a), Some(b)) => in_day_range(d, a, b),
            _ => false,
        },
        None => day_index(part) == Some(d),
    }
}

/// The bits of the first `n` weekdays that one part names.
pub open spec fn part_bits(part: Seq<char>, n: int) -> u8
    decreases n,
{
    if n <= 0 {
        0
    } else if part_has(part, n - 1) {
        (part_bits(part, n - 1) | (1u8 << ((n - 1) as u8))) as u8
    } else {
        part_bits(part, n - 1)
    }
}

/// The bits of every weekday the parts name.
pub open spec fn parts_bits(parts: Seq<Seq<char>>) -> u8
    decreases parts.len(),
{
    if parts.len() == 0 {
        0
    } else {
        (parts_bits(parts.drop_last()) | part_bits(parts.last(), 7)) as u8
    }
}

/// `mon`, `mon-fri`, `sat,sun` as a weekday bitmask; `0` when nothing parses.
pub open spec fn days_mask(text: Seq<char>) -> u8 {
    parts_bits(seqs::split(text, ','))
}

/// A key and its value, `key=value`; a token without `=` is all key.
pub open spec fn key_value(token: Seq<char>) -> (Seq<char>, Seq<char>) {
    match seqs::split_once(token, seq!['=']) {
        Some(p) => p,
        None => (token, seq![]),
    }
}

/// What one word of a schedule line does to a queue, and whether it parsed.
pub open spec fn token_effect(q: QueueView, token: Seq<char>) -> (QueueView, bool) {
    let (key, value) = key_value(token);
    if key == "once"@ {
        (QueueView { once: true, ..q }, true)
    } else if key == "shutdown"@ {
        (QueueView { shutdown: true, ..q }, true)
    } else if key == "on"@ {
        if seqs::split(value, '-').len() == 3 && seqs::utf8_len(value) == 10 {
            (QueueView { date: Some(value), ..q }, true)
        } else {
            (q, false)
        }
    } else if key == "sync"@ {
        match every_of(value) {
            Some(m) => (QueueView { sync: Some(m), ..q }, true),
            None => (q, false),
        }
    } else if key == "retry"@ {
        match seqs::parse_unsigned(value, 0xff) {
            Some(n) => (QueueView { retry: n as u8, ..q }, true),
            None => (q, false),
        }
    } else if key == "quota"@ {
        match quota_of(value) {
            Some(x) => (QueueView { quota: Some(x), ..q }, true),
            None => (q, false),
        }
    } else if seqs::contains(token, seq![':']) {
        match window_of(token) {
            Some(w) => (QueueView { schedule: Some(w), ..q }, true),
            None => (q, false),
        }
    } else if days_mask(token) == 0 {
        (q, false)
    } else {
        (QueueView { days: (q.days | days_mask(token)) as u8, ..q }, true)
    }
}

/// The words of a schedule line applied in order; what did parse is kept
/// even when something else did not.
pub open spec fn tokens_effect(q: QueueView, ts: Seq<Seq<char>>) -> (QueueView, bool)
    decreases ts.len(),
{
    if ts.len() == 0 {
        (q, true)
    } else {
        let (p, ok) = tokens_effect(q, ts.drop_last());
        let (r, ok2) = token_effect(p, ts.last());
        (r, ok && ok2)
    }
}

/// Schedule words never change which queue they are applied to.
proof fn lemma_tokens_keep_id(q: QueueView, ts: Seq<Seq<char>>)
    ensures
        tokens_effect(q, ts).0.id == q.id,
    decreases ts.len(),
{
    if ts.len() > 0 {
        lemma_tokens_keep_id(q, ts.drop_last());
    }
}

/// A schedule line never changes which queue it is applied to.
pub proof fn lemma_applied_keeps_id(q: QueueView, text: Seq<char>)
    ensures
        spec_applied(q, text).0.id == q.id,
        respecified(q, text).0.id == q.id,
{
    let (head, after) = head_and_after(text);
    let q1 = QueueView { after: seqs::replace_char(after, '|', ' '), ..q };
    lemma_tokens_keep_id(q1, seqs::words(head));
    let q2 = QueueView { paused: q.paused, ..fresh(q.id, q.name, q.max_active) };
    let (h2, a2) = head_and_after(text);
    let q3 = QueueView { after: seqs::replace_char(a2, '|', ' '), ..q2 };
    lemma_tokens_keep_id(q3, seqs::words(h2));
}

/// The head of a schedule line and the command after `after=`, which
/// swallows the rest of the line.
pub open spec fn head_and_after(text: Seq<char>) -> (Seq<char>, Seq<char>) {
    match seqs::split_once(text, "after="@) {
        Some((head, cmd)) => (head, seqs::trim(cmd)),
        None => (text, seq![]),
    }
}

/// A whole schedule line applied to a queue: its command, its words, and the
/// line itself kept as typed with no `|` in it.
pub open spec fn spec_applied(q: QueueView, text: Seq<char>) -> (QueueView, bool) {
    let (head, after) = head_and_after(text);
    let q1 = QueueView { after: seqs::replace_char(after, '|', ' '), ..q };
    let (q2, ok) = tokens_effect(q1, seqs::words(head));
    (QueueView { spec: seqs::replace_char(seqs::trim(text), '|', ' '), ..q2 }, ok)
}

/// A schedule line applied to a fresh copy of the queue: only its id, name,
/// slots and pause survive.
pub open spec fn respecified(q: QueueView, text: Seq<char>) -> (QueueView, bool) {
    spec_applied(QueueView { paused: q.paused, ..fresh(q.id, q.name, q.max_active) }, text)
}

/// `1h`, `30m`, `2d` -> minutes.
fn parse_every(text: &[char]) -> (r: Option<u32>)
    ensures
        r == every_of(text@),
{
    let t = text::trim(text);
    let mut k: usize = 0;
    proof {
        assert(t@.skip(0) =~= t@);
    }
    while k < t.len() && '0' <= t[k] && t[k] <= '9'
        invariant
            k <= t@.len(),
            digit_run(t@) == k + digit_run(t@.skip(k as int)),
        decreases t@.len() - k,
    {
        proof {
            assert(t@.skip(k as int).drop_first() =~= t@.skip(k + 1 as int));
        }
        k += 1;
    }
    proof {
        if k < t@.len() {
            assert(t@.skip(k as int)[0] == t@[k as int]);
        }
        assert(digit_run(t@.skip(k as int)) == 0);
    }
    if k >= t.len() {
        return None;
    }
    let n = t.len();
    let digits = text::slice_of(t.as_slice(), 0, k);
    let unit = text::slice_of(t.as_slice(), k, n);
    proof {
        assert(digits@ =~= t@.take(k as int));
        assert(unit@ =~= t@.skip(k as int));
    }
    let v = match text::parse_unsigned(digits.as_slice(), 0xffff_ffff) {
        Some(v) => v,
        None => return None,
    };
    let m: u64 = if text::same(unit.as_slice(), text::one('m').as_slice()) {
        v
    } else if text::same(unit.as_slice(), text::one('h').as_slice()) {
        v * 60
    } else if text::same(unit.as_slice(), text::one('d').as_slice()) {
        v * 1440
    } else {
        0
    };
    if 0 < m && m <= 0xffff_ffff {
        Some(m as u32)
    } else {
        None
    }
}

/// `150MB`, `2G`, `900K` -> bytes.
fn parse_size(text: &[char]) -> (r: Option<u64>)
    ensures
        r == quota_size_of(text@),
{
    let t = text::trim(text);
    let mut k: usize = 0;
    proof {
        assert(t@.skip(0) =~= t@);
    }
    while k < t.len() && (('0' <= t[k] && t[k] <= '9') || t[k] == '.')
        invariant
            k <= t@.len(),
            parse::number_end(t@) == k + parse::number_end(t@.skip(k as int)),
        decreases t@.len() - k,
    {
        proof {
            assert(t@.skip(k as int).drop_first() =~= t@.skip(k + 1 as int));
        }
        k += 1;
    }
    proof {
        if k < t@.len() {
            assert(t@.skip(k as int)[0] == t@[k as int]);
        }
        assert(parse::number_end(t@.skip(k as int)) == 0);
    }
    if k >= t.len() {
        return None;
    }
    let n = t.len();
    let unit = text::slice_of(t.as_slice(), k, n);
    let mut u = text::lower_ascii(unit.as_slice());
    let b = text::one('b');
    proof {
        assert(unit@ =~= t@.skip(k as int));
    }
    while text::ends_with(u.as_slice(), b.as_slice())
        invariant
            b@ == seq!['b'],
            parse::trim_end_str(lower_all(unit@), seq!['b']) == parse::trim_end_str(u@, seq!['b']),
        decreases u@.len(),
    {
        u = text::slice_of(u.as_slice(), 0, u.len() - 1);
    }
    assert(parse::trim_end_str(u@, seq!['b']) == u@);
    let scale: u64 = if text::same(u.as_slice(), text::one('k').as_slice()) {
        1024
    } else if text::same(u.as_slice(), text::one('m').as_slice()) {
        1024 * 1024
    } else if text::same(u.as_slice(), text::one('g').as_slice()) {
        1024 * 1024 * 1024
    } else if u.len() == 0 {
        1
    } else {
        return None;
    };
    let digits = text::slice_of(t.as_slice(), 0, k);
    proof {
        assert(digits@ =~= t@.take(k as int));
    }
    match parse::number_times(digits.as_slice(), scale) {
        Some(x) => if x > 0 {
            Some(x)
        } else {
            None
        },
        None => None,
    }
}

fn parse_quota(text: &[char]) -> (r: Option<(u64, u32)>)
    ensures
        r == quota_of(text@),
{
    match text::split_once(text, text::one('/').as_slice()) {
        Some((size, every)) => match (parse_size(size.as_slice()), parse_every(every.as_slice())) {
            (Some(b), Some(m)) => Some((b, m)),
            _ => None,
        },
        None => None,
    }
}

fn day_at(i: usize) -> (r: &'static str)
    requires
        i < 7,
    ensures
        r@ == day_name(i as int),
{
    if i == 0 {
        "mon"
    } else if i == 1 {
        "tue"
    } else if i == 2 {
        "wed"
    } else if i == 3 {
        "thu"
    } else if i == 4 {
        "fri"
    } else if i == 5 {
        "sat"
    } else {
        "sun"
    }
}

/// A weekday found at or after `i` is a weekday there.
proof fn lemma_day_from(name: Seq<char>, i: int)
    requires
        0 <= i,
    ensures
        day_from(name, i) matches Some(j) ==> i <= j < 7,
    decreases 7 - i,
{
    if i < 7 && day_name(i) != name {
        lemma_day_from(name, i + 1);
    }
}

fn day_of(name: &[char]) -> (r: Option<usize>)
    ensures
        match day_index(name@) {
            Some(i) => r == Some(i as usize) && 0 <= i < 7,
            None => r is None,
        },
{
    proof {
        lemma_day_from(name@, 0);
    }
    let mut i: usize = 0;
    while i < 7
        invariant
            i <= 7,
            day_index(name@) == day_from(name@, i as int),
        decreases 7 - i,
    {
        if text::same(name, text::chars_of(day_at(i)).as_slice()) {
            return Some(i);
        }
        i += 1;
    }
    None
}

fn part_names(part: &[char], d: usize) -> (r: bool)
    ensures
        r == part_has(part@, d as int),
{
    match text::split_once(part, text::one('-').as_slice()) {
        Some((f, t)) => match (day_of(f.as_slice()), day_of(t.as_slice())) {
            (Some(a), Some(b)) => if a <= b {
                a <= d && d <= b
            } else {
                d >= a || d <= b
            },
            _ => false,
        },
        None => match day_of(part) {
            Some(i) => i == d,
            None => false,
        },
    }
}

/// `mon`, `mon-fri`, `sat,sun` -> a weekday bitmask; `0` when nothing parses.
fn parse_days(text: &[char]) -> (r: u8)
    ensures
        r == days_mask(text@),
{
    let parts = text::split(text, ',');
    let ghost pv = seqs::views(parts@);
    let mut mask: u8 = 0;
    let mut i: usize = 0;
    proof {
        assert(pv.take(0) =~= Seq::<Seq<char>>::empty());
    }
    while i < parts.len()
        invariant
            i <= parts@.len(),
            pv == seqs::views(parts@),
            pv == seqs::split(text@, ','),
            mask == parts_bits(pv.take(i as int)),
        decreases parts@.len() - i,
    {
        let part = parts[i].as_slice();
        let mut bits: u8 = 0;
        let mut d: usize = 0;
        while d < 7
            invariant
                d <= 7,
                bits == part_bits(part@, d as int),
            decreases 7 - d,
        {
            if part_names(part, d) {
                bits = bits | (1u8 << (d as u8));
            }
            d += 1;
        }
        mask = mask | bits;
        proof {
            assert(pv.take(i + 1).drop_last() =~= pv.take(i as int));
            assert(pv.take(i + 1).last() == part@);
        }
        i += 1;
    }
    proof {
        assert(pv.take(parts@.len() as int) =~= pv);
    }
    mask
}

/// Applies one word of a schedule line.
fn apply_token(token: &[char], q: &mut Queue) -> (ok: bool)
    ensures
        (final(q)@, ok) == token_effect(old(q)@, token@),
{
    let (key, value) = match text::split_once(token, text::one('=').as_slice()) {
        Some(p) => p,
        None => (text::slice_of(token, 0, token.len()), Vec::new()),
    };
    proof {
        assert(token@.subrange(0, token@.len() as int) =~= token@);
        assert((key@, value@) == key_value(token@));
    }
    let k = key.as_slice();
    if text::same(k, text::chars_of("once").as_slice()) {
        q.once = true;
        true
    } else if text::same(k, text::chars_of("shutdown").as_slice()) {
        q.shutdown = true;
        true
    } else if text::same(k, text::chars_of("on").as_slice()) {
        if text::split(value.as_slice(), '-').len() == 3 && byte_len_is(value.as_slice(), 10) {
            q.date = Some(text::string_of(value.as_slice()));
            true
        } else {
            false
        }
    } else if text::same(k, text::chars_of("sync").as_slice()) {
        match parse_every(value.as_slice()) {
            Some(m) => {
                q.sync = Some(m);
                true
            },
            None => false,
        }
    } else if text::same(k, text::chars_of("retry").as_slice()) {
        match text::parse_unsigned(value.as_slice(), 0xff) {
            Some(n) => {
                q.retry = n as u8;
                true
            },
            None => false,
        }
    } else if text::same(k, text::chars_of("quota").as_slice()) {
        match parse_quota(value.as_slice()) {
            Some(x) => {
                q.quota = Some(x);
                true
            },
            None => false,
        }
    } else if text::contains(token, text::one(':').as_slice()) {
        match parse_window(text::string_of(token).as_str()) {
            Some(w) => {
                q.schedule = Some(w);
                true
            },
            None => false,
        }
    } else {
        let mask = parse_days(token);
        if mask == 0 {
            false
        } else {
            q.days = q.days | mask;
            true
        }
    }
}

/// The text takes exactly `n` bytes as UTF-8.
fn byte_len_is(s: &[char], n: usize) -> (r: bool)
    ensures
        r == (seqs::utf8_len(s@) == n),
{
    let mut m: usize = 0;
    let mut i: usize = 0;
    proof {
        assert(s@.take(0) =~= Seq::<char>::empty());
    }
    while i < s.len()
        invariant
            i <= s@.len(),
            m == seqs::utf8_len(s@.take(i as int)),
            m <= n,
        decreases s@.len() - i,
    {
        let c = s[i];
        let w: usize = if (c as u32) < 0x80 {
            1
        } else if (c as u32) < 0x800 {
            2
        } else if (c as u32) < 0x10000 {
            3
        } else {
            4
        };
        proof {
            assert(s@.take(i + 1).drop_last() =~= s@.take(i as int));
            assert(w == seqs::utf8_width(c));
        }
        if w > n - m {
            proof {
                text::lemma_utf8_len_prefix(s@, (i + 1) as nat);
            }
            return false;
        }
        m = m + w;
        i += 1;
    }
    proof {
        assert(s@.take(s@.len() as int) =~= s@);
    }
    m == n
}

/// The full schedule line, whitespace separated, any order:
///
/// `22:00-06:00 mon-fri once on=2026-08-01 sync=6h retry=3 quota=150MB/4h`
/// `shutdown after=<command, rest of the line>`
///
/// Returns false when something in it did not parse; whatever did parse is
/// still applied, so one typo does not silently drop the rest.
pub fn parse_spec(text: &str, q: &mut Queue) -> (ok: bool)
    ensures
        (final(q)@, ok) == spec_applied(old(q)@, text@),
{
    let t = text::chars_of(text);
    let (head, after) = match text::split_once(t.as_slice(), text::chars_of("after=").as_slice()) {
        Some((head, cmd)) => (head, text::trim(cmd.as_slice())),
        None => (text::slice_of(t.as_slice(), 0, t.len()), Vec::new()),
    };
    proof {
        assert(t@.subrange(0, t@.len() as int) =~= t@);
        assert((head@, after@) == head_and_after(text@));
    }
    q.after = text::string_of(text::replace_char(after.as_slice(), '|', ' ').as_slice());
    let ghost q1 = q@;
    let words = text::words(head.as_slice());
    let ghost wv = seqs::views(words@);
    let mut ok = true;
    let mut i: usize = 0;
    proof {
        assert(wv.take(0) =~= Seq::<Seq<char>>::empty());
    }
    while i < words.len()
        invariant
            i <= words@.len(),
            wv == seqs::views(words@),
            wv == seqs::words(head@),
            (q@, ok) == tokens_effect(q1, wv.take(i as int)),
        decreases words@.len() - i,
    {
        let good = apply_token(words[i].as_slice(), q);
        ok = ok && good;
        proof {
            assert(wv.take(i + 1).drop_last() =~= wv.take(i as int));
            assert(wv.take(i + 1).last() == words@[i as int]@);
        }
        i += 1;
    }
    proof {
        assert(wv.take(words@.len() as int) =~= wv);
    }
    q.spec = text::string_of(text::replace_char(text::trim(t.as_slice()).as_slice(), '|', ' ').as_slice());
    ok
}

impl Queue {
    /// Apply a typed schedule, replacing whatever was there: leftovers from
    /// the previous one (a stale weekday mask, a spent quota) would be
    /// invisible. Empty clears it. Only the pause survives.
    pub fn set_spec(&mut self, text: &str) -> (ok: bool)
        ensures
            (final(self)@, ok) == respecified(old(self)@, text@),
    {
        let paused = self.paused;
        let mut fresh_q = Queue::new(self.id, self.name.as_str(), self.max_active);
        fresh_q.paused = paused;
        *self = fresh_q;
        parse_spec(text, self)
    }
}

/// A new schedule replaces the old one whole: two queues that share an id,
/// a name, a slot count and a pause come out of the same schedule line the
/// same, whatever else they held before.
pub proof fn law_set_spec_replaces(a: QueueView, b: QueueView, text: Seq<char>)
    requires
        a.id == b.id,
        a.name == b.name,
        a.max_active == b.max_active,
        a.paused == b.paused,
    ensures
        respecified(a, text) == respecified(b, text),
{
}

/// A period counts minutes: `m` is one minute, `h` sixty and `d` a whole
/// day of 1440, for any count above zero whose minutes fit a `u32`.
pub proof fn law_every_counts_minutes(n: nat)
    requires
        0 < n,
    ensures
        n <= 0xffff_ffff ==> every_of(seqs::decimal(n) + seq!['m']) == Some(n as u32),
        n * 60 <= 0xffff_ffff ==> every_of(seqs::decimal(n) + seq!['h']) == Some((n * 60) as u32),
        n * 1440 <= 0xffff_ffff ==> every_of(seqs::decimal(n) + seq!['d']) == Some((n * 1440) as u32),
{
    if n <= 0xffff_ffff {
        lemma_count_then_unit(n, 'm');
    }
    if n * 60 <= 0xffff_ffff {
        lemma_count_then_unit(n, 'h');
    }
    if n * 1440 <= 0xffff_ffff {
        lemma_count_then_unit(n, 'd');
    }
}

/// A count in decimal followed by a unit letter reads back as that count
/// and that unit.
proof fn lemma_count_then_unit(n: nat, u: char)
    requires
        n <= 0xffff_ffff,
        u == 'm' || u == 'h' || u == 'd',
    ensures
        ({
            let t = seqs::trim(seqs::decimal(n) + seq![u]);
            let k = digit_run(t);
            &&& k < t.len()
            &&& t.take(k as int) == seqs::decimal(n)
            &&& t.skip(k as int) == seq![u]
            &&& seqs::parse_unsigned(t.take(k as int), 0xffff_ffff) == Some(n)
        }),
{
    let d = seqs::decimal(n);
    let t = d + seq![u];
    seqs::lemma_decimal_digits(n);
    seqs::lemma_decimal_parse(n, 0xffff_ffff);
    assert(seqs::is_digit(d[0]));
    assert(t[0] == d[0]);
    assert(t.last() == u);
    seqs::lemma_trim_ends(t);
    lemma_digit_run_concat(d, seq![u]);
    assert(digit_run(seq![u]) == 0);
    assert(t.take(d.len() as int) =~= d);
    assert(t.skip(d.len() as int) =~= seq![u]);
}

proof fn lemma_digit_run_concat(a: Seq<char>, b: Seq<char>)
    requires
        forall|i: int| 0 <= i < a.len() ==> seqs::is_digit(#[trigger] a[i]),
    ensures
        digit_run(a + b) == a.len() + digit_run(b),
    decreases a.len(),
{
    if a.len() == 0 {
        assert(a + b =~= b);
    } else {
        assert((a + b)[0] == a[0]);
        assert((a + b).drop_first() =~= a.drop_first() + b);
        assert forall|i: int| 0 <= i < a.drop_first().len() implies seqs::is_digit(#[trigger] a.drop_first()[i]) by {
            assert(a.drop_first()[i] == a[i + 1]);
        }
        lemma_digit_run_concat(a.drop_first(), b);
    }
}

} // verus!
