//! What survives a restart: the download directory, the queues, the list of
//! downloads, and the display choices. Pause state does not: a restart
//! starts clear.
use vstd::prelude::*;

use crate::channel;
use crate::download::{over_view, status_view, OverView, Overrides, Status, StatusView};
use crate::queue::{self, fresh, spec_applied, window_text, Queue, QueueView, DEFAULT};
use crate::seqs;
use crate::text;

verus! {

/// A download as it survives a restart: where it belongs, how it ended, how
/// far it got, what to fetch, its own settings, and the process it last ran
/// so the next run can reap it. The percent is kept as the text it was
/// written as; a restored row shows where it stood instead of 0 until the
/// backend reports again.
#[derive(Debug, Clone, PartialEq)]
pub struct SavedDownload {
    pub queue: usize,
    pub status: Status,
    pub percent: String,
    pub url: String,
    pub over: Overrides,
    pub pid: Option<u32>,
}

/// What a file holds.
pub struct State {
    pub dir: Option<String>,
    pub queues: Vec<Queue>,
    pub downloads: Vec<SavedDownload>,
    /// Nerd font glyphs for status icons.
    pub nerd: bool,
}

/// A saved download with its texts as character sequences.
#[verifier::ext_equal]
pub struct SavedView {
    pub queue: usize,
    pub status: StatusView,
    pub percent: Seq<char>,
    pub url: Seq<char>,
    pub over: OverView,
    pub pid: Option<u32>,
}

pub open spec fn saved_view(d: SavedDownload) -> SavedView {
    SavedView {
        queue: d.queue,
        status: status_view(d.status),
        percent: d.percent@,
        url: d.url@,
        over: over_view(d.over),
        pid: d.pid,
    }
}

pub open spec fn saved_views(v: Seq<SavedDownload>) -> Seq<SavedView> {
    v.map_values(|d: SavedDownload| saved_view(d))
}

pub open spec fn queue_views(v: Seq<Queue>) -> Seq<QueueView> {
    v.map_values(|q: Queue| q@)
}

/// A state with its texts as character sequences.
#[verifier::ext_equal]
pub struct StateView {
    pub dir: Option<Seq<char>>,
    pub queues: Seq<QueueView>,
    pub downloads: Seq<SavedView>,
    pub nerd: bool,
}

impl View for State {
    type V = StateView;

    open spec fn view(&self) -> StateView {
        StateView {
            dir: match self.dir {
                Some(d) => Some(d@),
                None => None,
            },
            queues: queue_views(self.queues@),
            downloads: saved_views(self.downloads@),
            nerd: self.nerd,
        }
    }
}

// ---------------------------------------------------------------------------
// Statuses
// ---------------------------------------------------------------------------

/// What a restored failure says.
pub open spec fn previous_failure() -> Seq<char> {
    "failed in a previous run"@
}

/// A saved status read back. Anything unfinished comes back queued, so it
/// resumes rather than claiming to be running a process that died with the
/// last session.
pub open spec fn status_of_word(word: Seq<char>) -> StatusView {
    if word == "done"@ {
        StatusView::Done
    } else if word == "cancelled"@ {
        StatusView::Cancelled
    } else if word == "failed"@ {
        StatusView::Failed(previous_failure())
    } else {
        StatusView::Queued
    }
}

/// The word a status is saved as. Running, paused and queued all resume as
/// queued.
pub open spec fn word_of_status(s: StatusView) -> Seq<char> {
    match s {
        StatusView::Done => "done"@,
        StatusView::Cancelled => "cancelled"@,
        StatusView::Failed(_) => "failed"@,
        _ => "queued"@,
    }
}

fn status_from(word: &[char]) -> (r: Status)
    ensures
        status_view(r) == status_of_word(word@),
{
    if text::same(word, text::chars_of("done").as_slice()) {
        Status::Done
    } else if text::same(word, text::chars_of("cancelled").as_slice()) {
        Status::Cancelled
    } else if text::same(word, text::chars_of("failed").as_slice()) {
        Status::Failed(text::string_of(text::chars_of("failed in a previous run").as_slice()))
    } else {
        Status::Queued
    }
}

fn status_word(status: &Status) -> (r: &'static str)
    ensures
        r@ == word_of_status(status_view(*status)),
{
    match status {
        Status::Done => "done",
        Status::Cancelled => "cancelled",
        Status::Failed(_) => "failed",
        _ => "queued",
    }
}

// ---------------------------------------------------------------------------
// Numbers as Rust reads them
// ---------------------------------------------------------------------------

/// An exponent: `e`, an optional sign, digits; or nothing.
pub open spec fn exp_text(e: Seq<char>) -> bool {
    e.len() == 0 || ((e[0] == 'e' || e[0] == 'E') && {
        let t = e.drop_first();
        let d = if t.len() > 0 && (t[0] == '+' || t[0] == '-') {
            t.drop_first()
        } else {
            t
        };
        d.len() > 0 && seqs::all_digits(d)
    })
}

/// Digits with at most one point and at least one digit, then an optional
/// exponent.
pub open spec fn number_text(b: Seq<char>) -> bool {
    let k = crate::utils::digit_run(b);
    let rest = b.skip(k as int);
    if rest.len() > 0 && rest[0] == '.' {
        let m = crate::utils::digit_run(rest.drop_first());
        (k > 0 || m > 0) && exp_text(rest.drop_first().skip(m as int))
    } else {
        k > 0 && exp_text(rest)
    }
}

/// What `str::parse::<f32>` accepts: an optional sign, then `inf`,
/// `infinity` or `nan` in any case, or a decimal number.
pub open spec fn float_text(s: Seq<char>) -> bool {
    let b = if s.len() > 0 && (s[0] == '+' || s[0] == '-') {
        s.drop_first()
    } else {
        s
    };
    let low = queue::lower_all(b);
    low == "inf"@ || low == "infinity"@ || low == "nan"@ || number_text(b)
}

/// The number of leading ASCII digits.
fn digits_at(s: &[char], from: usize) -> (k: usize)
    requires
        from <= s@.len(),
    ensures
        k == crate::utils::digit_run(s@.skip(from as int)),
        from + k <= s@.len(),
{
    let mut i = from;
    proof {
        assert(s@.skip(from as int).skip(0) =~= s@.skip(from as int));
    }
    while i < s.len() && '0' <= s[i] && s[i] <= '9'
        invariant
            from <= i <= s@.len(),
            crate::utils::digit_run(s@.skip(from as int)) == (i - from) + crate::utils::digit_run(
                s@.skip(i as int),
            ),
        decreases s@.len() - i,
    {
        proof {
            assert(s@.skip(i as int).drop_first() =~= s@.skip(i + 1 as int));
        }
        i += 1;
    }
    proof {
        if i < s@.len() {
            assert(s@.skip(i as int)[0] == s@[i as int]);
        }
    }
    i - from
}

fn exp_ok(e: &[char]) -> (r: bool)
    ensures
        r == exp_text(e@),
{
    if e.len() == 0 {
        return true;
    }
    if !(e[0] == 'e' || e[0] == 'E') {
        return false;
    }
    let n = e.len();
    let start: usize = if n > 1 && (e[1] == '+' || e[1] == '-') { 2 } else { 1 };
    let d = text::slice_of(e, start, n);
    proof {
        let t = e@.drop_first();
        if n > 1 && (e[1] == '+' || e[1] == '-') {
            assert(d@ =~= t.drop_first());
        } else {
            assert(d@ =~= t);
        }
    }
    if d.len() == 0 {
        return false;
    }
    let ghost sd = {
        let t = e@.drop_first();
        if t.len() > 0 && (t[0] == '+' || t[0] == '-') {
            t.drop_first()
        } else {
            t
        }
    };
    let mut i: usize = 0;
    while i < d.len()
        invariant
            i <= d@.len(),
            d@ == sd,
            e@.len() > 0,
            e@[0] == 'e' || e@[0] == 'E',
            sd == {
                let t = e@.drop_first();
                if t.len() > 0 && (t[0] == '+' || t[0] == '-') {
                    t.drop_first()
                } else {
                    t
                }
            },
            forall|j: int| 0 <= j < i ==> seqs::is_digit(#[trigger] d@[j]),
        decreases d@.len() - i,
    {
        if !('0' <= d[i] && d[i] <= '9') {
            proof {
                assert(!seqs::is_digit(d@[i as int]));
            }
            return false;
        }
        i += 1;
    }
    true
}

/// The text is a number `str::parse::<f32>` accepts.
pub fn is_float(s: &[char]) -> (r: bool)
    ensures
        r == float_text(s@),
{
    let n = s.len();
    let start: usize = if n > 0 && (s[0] == '+' || s[0] == '-') { 1 } else { 0 };
    let b = text::slice_of(s, start, n);
    proof {
        if start == 1 {
            assert(b@ =~= s@.drop_first());
        } else {
            assert(b@ =~= s@);
        }
    }
    let low = text::lower_ascii(b.as_slice());
    if text::same(low.as_slice(), text::chars_of("inf").as_slice()) || text::same(
        low.as_slice(),
        text::chars_of("infinity").as_slice(),
    ) || text::same(low.as_slice(), text::chars_of("nan").as_slice()) {
        return true;
    }
    let k = digits_at(b.as_slice(), 0);
    proof {
        assert(b@.skip(0) =~= b@);
    }
    let bl = b.len();
    let rest = text::slice_of(b.as_slice(), k, bl);
    proof {
        assert(rest@ =~= b@.skip(k as int));
    }
    if rest.len() > 0 && rest[0] == '.' {
        let rl = rest.len();
        let m = digits_at(rest.as_slice(), 1);
        let tail = text::slice_of(rest.as_slice(), 1 + m, rl);
        proof {
            assert(rest@.skip(1) =~= rest@.drop_first());
            assert(tail@ =~= rest@.drop_first().skip(m as int));
        }
        (k > 0 || m > 0) && exp_ok(tail.as_slice())
    } else {
        k > 0 && exp_ok(rest.as_slice())
    }
}

// ---------------------------------------------------------------------------
// Reading the file
// ---------------------------------------------------------------------------

/// `s` split at the first `|`, or all of it and `default`.
pub open spec fn cut_or(s: Seq<char>, default: Seq<char>) -> (Seq<char>, Seq<char>) {
    match seqs::split_once(s, seq!['|']) {
        Some(p) => p,
        None => (s, default),
    }
}

/// A fresh state: no directory, no queues, no downloads, plain glyphs.
pub open spec fn empty_state() -> StateView {
    StateView { dir: None, queues: seq![], downloads: seq![], nerd: false }
}

/// The saved settings of an `over` line: `dir|name|rate|backend|user`, each
/// part optional, the last one taking the rest of the line.
pub open spec fn over_of(value: Seq<char>) -> OverView {
    let (dir, r1) = cut_or(value, seq![]);
    let (name, r2) = cut_or(r1, seq![]);
    let (rate, r3) = cut_or(r2, seq![]);
    let (backend, user) = cut_or(r3, seq![]);
    OverView {
        dir: seqs::trim(dir),
        name: seqs::trim(name),
        rate: seqs::trim(rate),
        backend: seqs::trim(backend),
        user: seqs::trim(user),
        pass: seq![],
        args: seq![],
    }
}

/// The settings nobody set.
pub open spec fn no_over() -> OverView {
    OverView { dir: seq![], name: seq![], rate: seq![], backend: seq![], user: seq![], pass: seq![], args: seq![] }
}

/// A `download` line's value: `<queue>|<status>|<percent>|<url>`. The percent
/// is optional, so files written before it existed go straight to the url,
/// which never reads as a number; the url is last and unsplit, so one
/// containing `|` survives. `None` for a line missing a part.
pub open spec fn download_of(value: Seq<char>) -> Option<SavedView> {
    match seqs::split_once(value, seq!['|']) {
        None => None,
        Some((q, rest)) => match seqs::split_once(rest, seq!['|']) {
            None => None,
            Some((status, rest)) => {
                let (percent, url) = match seqs::split_once(rest, seq!['|']) {
                    Some((p, u)) => if float_text(seqs::trim(p)) {
                        (seqs::trim(p), u)
                    } else {
                        (seq!['0'], rest)
                    },
                    None => (seq!['0'], rest),
                };
                if seqs::trim(url).len() == 0 {
                    None
                } else {
                    Some(
                        SavedView {
                            queue: match seqs::parse_unsigned(seqs::trim(q), usize::MAX as nat) {
                                Some(n) => n as usize,
                                None => DEFAULT,
                            },
                            status: status_of_word(seqs::trim(status)),
                            percent,
                            url: seqs::trim(url),
                            over: no_over(),
                            pid: None,
                        },
                    )
                }
            },
        },
    }
}

/// A `queue` line's value, `<name>|<slots>|<schedule>`, as the queue with the
/// next id; slots and schedule are optional, and a bad slot count means 3.
pub open spec fn queue_of(value: Seq<char>, id: usize) -> Option<QueueView> {
    let (name, rest) = cut_or(value, seq!['3']);
    if seqs::trim(name).len() == 0 {
        None
    } else {
        let (slots, window) = cut_or(rest, seq![]);
        let n = match seqs::parse_unsigned(seqs::trim(slots), usize::MAX as nat) {
            Some(n) => n as usize,
            None => 3,
        };
        Some(spec_applied(fresh(id, seqs::trim(name), n), window).0)
    }
}

/// One line read into the state so far. A malformed line is skipped rather
/// than losing the whole file.
pub open spec fn state_step(s: StateView, line: Seq<char>) -> StateView {
    match seqs::split_once(line, seq!['=']) {
        None => s,
        Some((k, v)) => {
            let key = seqs::trim(k);
            let value = seqs::trim(v);
            if key == "dir"@ {
                if value.len() > 0 {
                    StateView { dir: Some(value), ..s }
                } else {
                    s
                }
            } else if key == "nerd"@ {
                StateView { nerd: value == "true"@, ..s }
            } else if key == "queue"@ {
                match queue_of(value, s.queues.len() as usize) {
                    Some(q) => StateView { queues: s.queues.push(q), ..s },
                    None => s,
                }
            } else if key == "download"@ {
                match download_of(value) {
                    Some(d) => StateView { downloads: s.downloads.push(d), ..s },
                    None => s,
                }
            } else if key == "over"@ {
                // Attaches to the download above it; a stray one is ignored.
                if s.downloads.len() == 0 {
                    s
                } else {
                    let last = s.downloads.last();
                    StateView {
                        downloads: s.downloads.update(
                            s.downloads.len() - 1,
                            SavedView { over: over_of(value), ..last },
                        ),
                        ..s
                    }
                }
            } else if key == "pid"@ {
                if s.downloads.len() == 0 {
                    s
                } else {
                    match seqs::parse_unsigned(value, 0xffff_ffff) {
                        Some(p) => {
                            let last = s.downloads.last();
                            StateView {
                                downloads: s.downloads.update(
                                    s.downloads.len() - 1,
                                    SavedView { pid: Some(p as u32), ..last },
                                ),
                                ..s
                            }
                        },
                        None => s,
                    }
                }
            } else {
                s
            }
        },
    }
}

/// Lines read one after the other, starting from `s`.
pub open spec fn state_from(s: StateView, ls: Seq<Seq<char>>) -> StateView
    decreases ls.len(),
{
    if ls.len() == 0 {
        s
    } else {
        state_step(state_from(s, ls.drop_last()), ls.last())
    }
}

/// The state a file holds.
pub open spec fn state_of(text: Seq<char>) -> StateView {
    state_from(empty_state(), seqs::lines(text))
}

/// `s` split at the first `|`, or all of it and `default`.
fn cut_pipe(s: &[char], default: Vec<char>) -> (r: (Vec<char>, Vec<char>))
    ensures
        (r.0@, r.1@) == cut_or(s@, default@),
{
    match text::split_once(s, text::one('|').as_slice()) {
        Some(p) => p,
        None => (text::slice_of(s, 0, s.len()), default),
    }
}

fn parse_over(value: &[char]) -> (r: Overrides)
    ensures
        over_view(r) == over_of(value@),
{
    let (dir, r1) = cut_pipe(value, Vec::new());
    let (name, r2) = cut_pipe(r1.as_slice(), Vec::new());
    let (rate, r3) = cut_pipe(r2.as_slice(), Vec::new());
    let (backend, user) = cut_pipe(r3.as_slice(), Vec::new());
    proof {
        assert(value@.subrange(0, value@.len() as int) =~= value@);
        assert(r1@.subrange(0, r1@.len() as int) =~= r1@);
        assert(r2@.subrange(0, r2@.len() as int) =~= r2@);
        assert(r3@.subrange(0, r3@.len() as int) =~= r3@);
    }
    Overrides {
        dir: text::string_of(text::trim(dir.as_slice()).as_slice()),
        name: text::string_of(text::trim(name.as_slice()).as_slice()),
        rate: text::string_of(text::trim(rate.as_slice()).as_slice()),
        backend: text::string_of(text::trim(backend.as_slice()).as_slice()),
        args: String::new(),
        user: text::string_of(text::trim(user.as_slice()).as_slice()),
        pass: String::new(),
    }
}

fn parse_download(value: &[char]) -> (r: Option<SavedDownload>)
    ensures
        match download_of(value@) {
            Some(d) => r matches Some(x) && saved_view(x) == d,
            None => r is None,
        },
{
    let bar = text::one('|');
    let (q, rest) = match text::split_once(value, bar.as_slice()) {
        Some(p) => p,
        None => return None,
    };
    let (status, rest) = match text::split_once(rest.as_slice(), bar.as_slice()) {
        Some(p) => p,
        None => return None,
    };
    let (percent, url) = match text::split_once(rest.as_slice(), bar.as_slice()) {
        Some((p, u)) => {
            let p = text::trim(p.as_slice());
            if is_float(p.as_slice()) {
                (p, u)
            } else {
                (text::one('0'), text::slice_of(rest.as_slice(), 0, rest.len()))
            }
        },
        None => (text::one('0'), text::slice_of(rest.as_slice(), 0, rest.len())),
    };
    proof {
        assert(rest@.subrange(0, rest@.len() as int) =~= rest@);
    }
    let url = text::trim(url.as_slice());
    if url.len() == 0 {
        return None;
    }
    let queue = match text::parse_unsigned(text::trim(q.as_slice()).as_slice(), usize::MAX as u64) {
        Some(n) => n as usize,
        None => DEFAULT,
    };
    let d = SavedDownload {
        queue,
        status: status_from(text::trim(status.as_slice()).as_slice()),
        percent: text::string_of(percent.as_slice()),
        url: text::string_of(url.as_slice()),
        over: Overrides {
            dir: String::new(),
            name: String::new(),
            rate: String::new(),
            backend: String::new(),
            args: String::new(),
            user: String::new(),
            pass: String::new(),
        },
        pid: None,
    };
    proof {
        assert(saved_view(d) =~= download_of(value@)->0);
    }
    Some(d)
}

/// Reads one line into the state so far.
fn read_line(s: &mut State, line: &[char])
    ensures
        final(s)@ == state_step(old(s)@, line@),
{
    let (k, v) = match text::split_once(line, text::one('=').as_slice()) {
        Some(p) => p,
        None => return,
    };
    let key = text::trim(k.as_slice());
    let value = text::trim(v.as_slice());
    let ks = key.as_slice();
    if text::same(ks, text::chars_of("dir").as_slice()) {
        if value.len() > 0 {
            s.dir = Some(text::string_of(value.as_slice()));
        }
    } else if text::same(ks, text::chars_of("nerd").as_slice()) {
        s.nerd = text::same(value.as_slice(), text::chars_of("true").as_slice());
    } else if text::same(ks, text::chars_of("queue").as_slice()) {
        let (name, rest) = cut_pipe(value.as_slice(), text::one('3'));
        let name = text::trim(name.as_slice());
        if name.len() == 0 {
            return;
        }
        let (slots, window) = cut_pipe(rest.as_slice(), Vec::new());
        let n: usize = match text::parse_unsigned(text::trim(slots.as_slice()).as_slice(), usize::MAX as u64) {
            Some(n) => n as usize,
            None => 3,
        };
        let id = s.queues.len();
        let mut q = Queue::new(id, text::string_of(name.as_slice()).as_str(), n);
        queue::parse_spec(text::string_of(window.as_slice()).as_str(), &mut q);
        s.queues.push(q);
    } else if text::same(ks, text::chars_of("download").as_slice()) {
        match parse_download(value.as_slice()) {
            Some(d) => s.downloads.push(d),
            None => {},
        }
    } else if text::same(ks, text::chars_of("over").as_slice()) {
        let n = s.downloads.len();
        if n == 0 {
            return;
        }
        let over = parse_over(value.as_slice());
        s.downloads[n - 1].over = over;
    } else if text::same(ks, text::chars_of("pid").as_slice()) {
        let n = s.downloads.len();
        if n == 0 {
            return;
        }
        match text::parse_unsigned(value.as_slice(), 0xffff_ffff) {
            Some(p) => {
                s.downloads[n - 1].pid = Some(p as u32);
            },
            None => {},
        }
    }
}

impl State {
    /// Nothing saved.
    pub fn empty() -> (r: State)
        ensures
            r@ == empty_state(),
    {
        let r = State { dir: None, queues: Vec::new(), downloads: Vec::new(), nerd: false };
        proof {
            assert(r@ =~= empty_state());
        }
        r
    }

    /// `dir = <path>`, `nerd = true`, `queue = <name>|<slots>|<schedule>`,
    /// `download = <queue>|<status>|<percent>|<url>`, each download optionally
    /// followed by `over = <dir>|<name>|<rate>|<backend>|<user>` and
    /// `pid = <pid>` for the download above it, on lines of their own so a
    /// url with a `|` in it stays the last unsplit field. A malformed line is
    /// skipped rather than losing the whole file.
    pub fn parse(text: &str) -> (r: State)
        ensures
            r@ == state_of(text@),
    {
        let ls = text::lines(text::chars_of(text).as_slice());
        let ghost lv = seqs::views(ls@);
        let mut s = State::empty();
        let mut i: usize = 0;
        proof {
            assert(lv.take(0) =~= Seq::<Seq<char>>::empty());
        }
        while i < ls.len()
            invariant
                i <= ls@.len(),
                lv == seqs::views(ls@),
                lv == seqs::lines(text@),
                s@ == state_from(empty_state(), lv.take(i as int)),
            decreases ls@.len() - i,
        {
            read_line(&mut s, ls[i].as_slice());
            proof {
                assert(lv.take(i + 1).drop_last() =~= lv.take(i as int));
                assert(lv.take(i + 1).last() == ls@[i as int]@);
            }
            i += 1;
        }
        proof {
            assert(lv.take(ls@.len() as int) =~= lv);
        }
        s
    }

    /// Saved queues, or the single default queue when there is nothing saved.
    pub fn queues_or_default(&self) -> (r: Vec<Queue>)
        ensures
            self.queues@.len() == 0 ==> queue_views(r@) == seq![fresh(DEFAULT, "default"@, 3)],
            self.queues@.len() > 0 ==> queue_views(r@) == queue_views(self.queues@),
    {
        if self.queues.len() == 0 {
            let mut v: Vec<Queue> = Vec::new();
            v.push(Queue::new(DEFAULT, "default", 3));
            proof {
                reveal_strlit("default");
                assert(seqs::trim("default"@) =~= "default"@);
                assert(queue_views(v@) =~= seq![fresh(DEFAULT, "default"@, 3)]);
            }
            v
        } else {
            let mut v: Vec<Queue> = Vec::new();
            let mut i: usize = 0;
            while i < self.queues.len()
                invariant
                    i <= self.queues@.len(),
                    queue_views(v@) == queue_views(self.queues@).take(i as int),
                decreases self.queues@.len() - i,
            {
                let ghost before = queue_views(v@);
                v.push(self.queues[i].copy());
                proof {
                    assert(queue_views(v@) =~= before.push(self.queues@[i as int]@));
                    assert(queue_views(self.queues@).take(i + 1) =~= queue_views(self.queues@).take(i as int).push(
                        self.queues@[i as int]@,
                    ));
                }
                i += 1;
            }
            proof {
                assert(queue_views(self.queues@).take(self.queues@.len() as int) =~= queue_views(self.queues@));
            }
            v
        }
    }
}

// ---------------------------------------------------------------------------
// Writing the file
// ---------------------------------------------------------------------------

/// Nothing of a download's own settings is set.
pub open spec fn over_empty(o: OverView) -> bool {
    o.dir.len() == 0 && o.name.len() == 0 && o.rate.len() == 0 && o.backend.len() == 0 && o.user.len()
        == 0 && o.pass.len() == 0 && o.args.len() == 0
}

/// A queue's line.
pub open spec fn queue_line(q: QueueView) -> Seq<char> {
    "queue = "@ + q.name + seq!['|'] + seqs::decimal(q.max_active as nat) + seq!['|'] + window_text(q)
}

/// A download's lines: the download, its own settings when it has any, and
/// its process when it has one.
pub open spec fn download_lines(d: SavedView) -> Seq<Seq<char>> {
    seq![
        "download = "@ + seqs::decimal(d.queue as nat) + seq!['|'] + word_of_status(d.status) + seq!['|']
            + d.percent + seq!['|'] + d.url,
    ] + (if over_empty(d.over) {
        seq![]
    } else {
        seq![
            "over = "@ + d.over.dir + seq!['|'] + d.over.name + seq!['|'] + d.over.rate + seq!['|']
                + d.over.backend + seq!['|'] + d.over.user,
        ]
    }) + match d.pid {
        Some(p) => seq!["pid = "@ + seqs::decimal(p as nat)],
        None => seq![],
    }
}

/// The queue lines.
pub open spec fn queues_lines(qs: Seq<QueueView>) -> Seq<Seq<char>>
    decreases qs.len(),
{
    if qs.len() == 0 {
        seq![]
    } else {
        queues_lines(qs.drop_last()).push(queue_line(qs.last()))
    }
}

/// The download lines.
pub open spec fn downloads_lines(ds: Seq<SavedView>) -> Seq<Seq<char>>
    decreases ds.len(),
{
    if ds.len() == 0 {
        seq![]
    } else {
        downloads_lines(ds.drop_last()) + download_lines(ds.last())
    }
}

/// The file's lines: the directory, the glyph choice when it is on, the
/// queues, then the downloads.
pub open spec fn state_lines(dir: Seq<char>, qs: Seq<QueueView>, ds: Seq<SavedView>, nerd: bool) -> Seq<
    Seq<char>,
> {
    seq!["dir = "@ + dir] + (if nerd {
        seq!["nerd = true"@]
    } else {
        seq![]
    }) + queues_lines(qs) + downloads_lines(ds)
}

/// Appends one line and its newline.
fn push_line(out: &mut Vec<char>, line: &[char])
    ensures
        final(out)@ == old(out)@ + seqs::ended(seq![line@]),
{
    text::push_all(out, line);
    out.push('\n');
    proof {
        assert(seq![line@].drop_first() =~= Seq::<Seq<char>>::empty());
        assert(seqs::ended(Seq::<Seq<char>>::empty()) =~= Seq::<char>::empty());
        assert(seq![line@][0] == line@);
        assert(final(out)@ =~= old(out)@ + seqs::ended(seq![line@]));
    }
}

/// `a` then `b`.
fn cat(a: &str, b: &[char]) -> (r: Vec<char>)
    ensures
        r@ == a@ + b@,
{
    let mut v = text::chars_of(a);
    text::push_all(&mut v, b);
    v
}

fn download_text(d: &SavedDownload) -> (r: Vec<Vec<char>>)
    ensures
        seqs::views(r@) == download_lines(saved_view(*d)),
{
    let mut ls: Vec<Vec<char>> = Vec::new();
    let mut l = cat("download = ", text::decimal(d.queue as u64).as_slice());
    l.push('|');
    text::push_all(&mut l, text::chars_of(status_word(&d.status)).as_slice());
    l.push('|');
    text::push_all(&mut l, text::chars_of(d.percent.as_str()).as_slice());
    l.push('|');
    text::push_all(&mut l, text::chars_of(d.url.as_str()).as_slice());
    let ghost dv = saved_view(*d);
    proof {
        assert(l@ =~= "download = "@ + seqs::decimal(dv.queue as nat) + seq!['|'] + word_of_status(dv.status)
            + seq!['|'] + dv.percent + seq!['|'] + dv.url);
    }
    ls.push(l);
    let ghost first = seqs::views(ls@);
    proof {
        assert(first =~= seq![l@]);
    }
    if !d.over.is_empty() {
        let o = &d.over;
        let mut l = cat("over = ", text::chars_of(o.dir.as_str()).as_slice());
        l.push('|');
        text::push_all(&mut l, text::chars_of(o.name.as_str()).as_slice());
        l.push('|');
        text::push_all(&mut l, text::chars_of(o.rate.as_str()).as_slice());
        l.push('|');
        text::push_all(&mut l, text::chars_of(o.backend.as_str()).as_slice());
        l.push('|');
        text::push_all(&mut l, text::chars_of(o.user.as_str()).as_slice());
        proof {
            assert(l@ =~= "over = "@ + dv.over.dir + seq!['|'] + dv.over.name + seq!['|'] + dv.over.rate
                + seq!['|'] + dv.over.backend + seq!['|'] + dv.over.user);
        }
        let ghost before = seqs::views(ls@);
        ls.push(l);
        proof {
            assert(seqs::views(ls@) =~= before.push(l@));
        }
    }
    let ghost second = seqs::views(ls@);
    proof {
        assert(second =~= first + (if over_empty(dv.over) {
            Seq::<Seq<char>>::empty()
        } else {
            seq![
                "over = "@ + dv.over.dir + seq!['|'] + dv.over.name + seq!['|'] + dv.over.rate + seq!['|']
                    + dv.over.backend + seq!['|'] + dv.over.user,
            ]
        }));
    }
    match d.pid {
        Some(p) => {
            let l = cat("pid = ", text::decimal(p as u64).as_slice());
            ls.push(l);
            proof {
                assert(seqs::views(ls@) =~= second.push(l@));
            }
        },
        None => {},
    }
    proof {
        assert(seqs::views(ls@) =~= download_lines(saved_view(*d)));
    }
    ls
}

impl State {
    /// The file for this directory, these queues and downloads, and this
    /// glyph choice, in the form `parse` reads.
    pub fn render(dir: &str, queues: &[Queue], downloads: &[SavedDownload], nerd: bool) -> (r: String)
        ensures
            r@ == seqs::ended(state_lines(dir@, queue_views(queues@), saved_views(downloads@), nerd)),
    {
        let ghost qs = queue_views(queues@);
        let ghost ds = saved_views(downloads@);
        let mut out: Vec<char> = Vec::new();
        push_line(&mut out, cat("dir = ", text::chars_of(dir).as_slice()).as_slice());
        if nerd {
            push_line(&mut out, text::chars_of("nerd = true").as_slice());
        }
        let ghost head = seq!["dir = "@ + dir@] + (if nerd {
            seq!["nerd = true"@]
        } else {
            seq![]
        });
        proof {
            let a = seq!["dir = "@ + dir@];
            if nerd {
                seqs::lemma_ended_concat(a, seq!["nerd = true"@]);
            } else {
                assert(head =~= a);
            }
            assert(out@ == seqs::ended(head));
            assert(qs.take(0) =~= Seq::<QueueView>::empty());
            assert(head + queues_lines(qs.take(0)) =~= head);
        }
        let mut i: usize = 0;
        while i < queues.len()
            invariant
                i <= queues@.len(),
                qs == queue_views(queues@),
                out@ == seqs::ended(head + queues_lines(qs.take(i as int))),
            decreases queues@.len() - i,
        {
            let q = &queues[i];
            let mut l = cat("queue = ", text::chars_of(q.name.as_str()).as_slice());
            l.push('|');
            text::push_all(&mut l, text::decimal(q.max_active as u64).as_slice());
            l.push('|');
            text::push_all(&mut l, text::chars_of(q.window().as_str()).as_slice());
            let ghost before = out@;
            push_line(&mut out, l.as_slice());
            proof {
                assert(l@ =~= queue_line(qs[i as int]));
                assert(qs.take(i + 1).drop_last() =~= qs.take(i as int));
                assert(qs.take(i + 1).last() == qs[i as int]);
                seqs::lemma_ended_concat(head + queues_lines(qs.take(i as int)), seq![l@]);
                assert(head + queues_lines(qs.take(i + 1)) =~= head + queues_lines(qs.take(i as int)) + seq![l@]);
            }
            i += 1;
        }
        let ghost mid = head + queues_lines(qs);
        proof {
            assert(qs.take(queues@.len() as int) =~= qs);
            assert(ds.take(0) =~= Seq::<SavedView>::empty());
            assert(mid + downloads_lines(ds.take(0)) =~= mid);
        }
        let mut j: usize = 0;
        while j < downloads.len()
            invariant
                j <= downloads@.len(),
                ds == saved_views(downloads@),
                out@ == seqs::ended(mid + downloads_lines(ds.take(j as int))),
            decreases downloads@.len() - j,
        {
            let ls = download_text(&downloads[j]);
            let ghost before = out@;
            let mut k: usize = 0;
            proof {
                assert(seqs::views(ls@).take(0) =~= Seq::<Seq<char>>::empty());
                assert(mid + downloads_lines(ds.take(j as int)) + seqs::views(ls@).take(0) =~= mid
                    + downloads_lines(ds.take(j as int)));
            }
            while k < ls.len()
                invariant
                    k <= ls@.len(),
                    out@ == seqs::ended(mid + downloads_lines(ds.take(j as int)) + seqs::views(ls@).take(k as int)),
                decreases ls@.len() - k,
            {
                push_line(&mut out, ls[k].as_slice());
                proof {
                    let base = mid + downloads_lines(ds.take(j as int)) + seqs::views(ls@).take(k as int);
                    seqs::lemma_ended_concat(base, seq![ls@[k as int]@]);
                    assert(seqs::views(ls@).take(k + 1) =~= seqs::views(ls@).take(k as int).push(ls@[k as int]@));
                    assert(base + seq![ls@[k as int]@] =~= mid + downloads_lines(ds.take(j as int)) + seqs::views(ls@).take(
                        k + 1,
                    ));
                }
                k += 1;
            }
            proof {
                assert(seqs::views(ls@).take(ls@.len() as int) =~= seqs::views(ls@));
                assert(ds.take(j + 1).drop_last() =~= ds.take(j as int));
                assert(ds.take(j + 1).last() == ds[j as int]);
                assert(downloads_lines(ds.take(j + 1)) == downloads_lines(ds.take(j as int)) + download_lines(ds[j as int]));
                assert(mid + downloads_lines(ds.take(j + 1)) =~= mid + downloads_lines(ds.take(j as int)) + seqs::views(ls@));
            }
            j += 1;
        }
        proof {
            assert(ds.take(downloads@.len() as int) =~= ds);
            assert(mid + downloads_lines(ds) =~= state_lines(dir@, qs, ds, nerd));
        }
        text::string_of(out.as_slice())
    }
}

// ---------------------------------------------------------------------------
// What the file gives back
// ---------------------------------------------------------------------------

/// A directory the file holds: it ends its line.
pub open spec fn clean_dir(dir: Seq<char>) -> bool {
    seqs::one_line(dir)
}

/// A queue the file holds: a name with more than whitespace and no `|` or
/// newline in it, and a schedule that ends its line.
pub open spec fn clean_queue(q: QueueView) -> bool {
    &&& seqs::trim(q.name).len() > 0
    &&& seqs::free_of(q.name, '|')
    &&& seqs::free_of(q.name, '\n')
    &&& seqs::one_line(window_text(q))
}

/// A download the file holds: its percent is a number with no `|` or
/// newline in it, its url is more than whitespace and ends its line, and of
/// its own settings all but the last are free of `|`, and all end their line.
pub open spec fn clean_saved(d: SavedView) -> bool {
    &&& float_text(seqs::trim(d.percent))
    &&& seqs::free_of(d.percent, '|')
    &&& seqs::free_of(d.percent, '\n')
    &&& seqs::trim(d.url).len() > 0
    &&& seqs::one_line(d.url)
    &&& seqs::free_of(d.over.dir, '|')
    &&& seqs::free_of(d.over.name, '|')
    &&& seqs::free_of(d.over.rate, '|')
    &&& seqs::free_of(d.over.backend, '|')
    &&& seqs::free_of(d.over.dir, '\n')
    &&& seqs::free_of(d.over.name, '\n')
    &&& seqs::free_of(d.over.rate, '\n')
    &&& seqs::free_of(d.over.backend, '\n')
    &&& seqs::one_line(d.over.user)
}

/// A download's own settings as the file gives them back: trimmed, without
/// the password and the extra arguments, which are never written.
pub open spec fn restored_over(o: OverView) -> OverView {
    OverView {
        dir: seqs::trim(o.dir),
        name: seqs::trim(o.name),
        rate: seqs::trim(o.rate),
        backend: seqs::trim(o.backend),
        user: seqs::trim(o.user),
        pass: seq![],
        args: seq![],
    }
}

/// A download as the file gives it back: its status by the word it is saved
/// as, its percent and url trimmed, its settings as above.
pub open spec fn restored_download(d: SavedView) -> SavedView {
    SavedView {
        queue: d.queue,
        status: status_of_word(word_of_status(d.status)),
        percent: seqs::trim(d.percent),
        url: seqs::trim(d.url),
        over: restored_over(d.over),
        pid: d.pid,
    }
}

/// The queue in position `id` as the file gives it back: a fresh queue with
/// that id, the name and the slots, and the schedule applied to it.
pub open spec fn restored_queue(q: QueueView, id: int) -> QueueView {
    spec_applied(fresh(id as usize, q.name, q.max_active), seqs::trim_end(window_text(q))).0
}

/// The queues as the file gives them back.
pub open spec fn restored_queues(qs: Seq<QueueView>) -> Seq<QueueView> {
    Seq::new(qs.len(), |k: int| restored_queue(qs[k], k))
}

/// The state a file written for these values gives back.
pub open spec fn restored_state(dir: Seq<char>, qs: Seq<QueueView>, ds: Seq<SavedView>, nerd: bool) -> StateView {
    StateView {
        dir: if seqs::trim(dir).len() > 0 {
            Some(seqs::trim(dir))
        } else {
            None
        },
        queues: restored_queues(qs),
        downloads: ds.map_values(|d: SavedView| restored_download(d)),
        nerd,
    }
}

/// The keys of the file are keys as it spells them, and tell themselves
/// apart.
proof fn lemma_state_keys()
    ensures
        channel::plain_key("dir"@),
        channel::plain_key("nerd"@),
        channel::plain_key("queue"@),
        channel::plain_key("download"@),
        channel::plain_key("over"@),
        channel::plain_key("pid"@),
        "nerd"@ != "dir"@,
        "queue"@ != "dir"@,
        "queue"@ != "nerd"@,
        "download"@ != "dir"@,
        "download"@ != "nerd"@,
        "download"@ != "queue"@,
        "over"@ != "dir"@,
        "over"@ != "nerd"@,
        "over"@ != "queue"@,
        "over"@ != "download"@,
        "pid"@ != "dir"@,
        "pid"@ != "nerd"@,
        "pid"@ != "queue"@,
        "pid"@ != "download"@,
        "pid"@ != "over"@,
{
    reveal_strlit("dir");
    reveal_strlit("nerd");
    reveal_strlit("queue");
    reveal_strlit("download");
    reveal_strlit("over");
    reveal_strlit("pid");
    assert("nerd"@[0] != "over"@[0]);
    assert("dir"@[0] != "pid"@[0]);
}

/// A `key = value` line splits at its first `=` into the key and the value.
proof fn lemma_key_line(key: Seq<char>, v: Seq<char>)
    requires
        channel::plain_key(key),
    ensures
        seqs::split_once(key + " = "@ + v, seq!['=']) == Some((key + seq![' '], seq![' '] + v)),
        seqs::trim(key + seq![' ']) == key,
        seqs::trim(seq![' '] + v) == seqs::trim(v),
{
    reveal_strlit(" = ");
    let kk = key + seq![' '];
    assert(key + " = "@ + v =~= kk + seq!['='] + (seq![' '] + v));
    assert forall|i: int| 0 <= i < kk.len() implies kk[i] != '=' by {
        if i < key.len() {
            assert(kk[i] == key[i]);
        }
    }
    seqs::lemma_split_first(kk, seq![' '] + v, '=');
    assert(seqs::trim_start(kk) == kk);
    assert(kk.drop_last() =~= key);
    assert(seqs::trim_end(key) == key);
    assert(seqs::trim_end(kk) == seqs::trim_end(key));
    assert((seq![' '] + v).drop_first() =~= v);
    assert(seqs::trim_start(seq![' '] + v) == seqs::trim_start(v));
}

/// A text ending a line after one free of newlines ends the line.
proof fn lemma_one_line_concat(a: Seq<char>, b: Seq<char>)
    requires
        seqs::free_of(a, '\n'),
        seqs::one_line(b),
        b.len() > 0 || !(a.len() > 0 && a.last() == '\r'),
    ensures
        seqs::one_line(a + b),
{
    assert forall|i: int| 0 <= i < (a + b).len() implies (a + b)[i] != '\n' by {
        if i < a.len() {
            assert((a + b)[i] == a[i]);
        } else {
            assert((a + b)[i] == b[i - a.len()]);
        }
    }
    if b.len() > 0 {
        assert((a + b).last() == b.last());
    } else {
        assert(a + b =~= a);
    }
}

/// A number in decimal is free of separators and newlines, starts and
/// ends with no whitespace, and reads back as itself.
proof fn lemma_decimal_plain(n: nat, max: nat)
    requires
        n <= max,
    ensures
        seqs::decimal(n).len() > 0,
        seqs::free_of(seqs::decimal(n), '|'),
        seqs::free_of(seqs::decimal(n), '\n'),
        seqs::one_line(seqs::decimal(n)),
        seqs::trim(seqs::decimal(n)) == seqs::decimal(n),
        seqs::trim(seq![' '] + seqs::decimal(n)) == seqs::decimal(n),
        seqs::parse_unsigned(seqs::decimal(n), max) == Some(n),
        !seqs::is_ws(seqs::decimal(n)[0]),
        !seqs::is_ws(seqs::decimal(n).last()),
{
    let d = seqs::decimal(n);
    seqs::lemma_decimal_digits(n);
    seqs::lemma_decimal_parse(n, max);
    assert(seqs::is_digit(d[0]));
    assert(seqs::is_digit(d[d.len() - 1]));
    seqs::lemma_trim_spaced(d);
}

/// A text free of `c` has a front trimmed off that is free of it too.
proof fn lemma_trim_start_free(s: Seq<char>, c: char)
    requires
        seqs::free_of(s, c),
    ensures
        seqs::free_of(seqs::trim_start(s), c),
{
    seqs::lemma_trim_start_len(s);
    let t = seqs::trim_start(s);
    assert forall|i: int| 0 <= i < t.len() implies t[i] != c by {
        assert(t[i] == s[s.len() - t.len() + i]);
    }
}

/// Trimming a text twice trims no more than once.
proof fn lemma_trim_trim(s: Seq<char>)
    ensures
        seqs::trim(seqs::trim(s)) == seqs::trim(s),
{
    seqs::lemma_trim_after_one(seqs::trim_start(s));
    seqs::lemma_trim_after_one(s);
}

/// A queue line's value reads back as the queue in position `id`.
proof fn lemma_queue_value(q: QueueView, id: int)
    requires
        clean_queue(q),
        0 <= id <= usize::MAX,
    ensures
        queue_of(
            seqs::trim(q.name + seq!['|'] + seqs::decimal(q.max_active as nat) + seq!['|'] + window_text(q)),
            id as usize,
        ) == Some(restored_queue(q, id)),
{
    let name = q.name;
    let dec = seqs::decimal(q.max_active as nat);
    let w = window_text(q);
    lemma_decimal_plain(q.max_active as nat, usize::MAX as nat);
    let rest = seq!['|'] + dec + seq!['|'] + w;
    let v = q.name + seq!['|'] + dec + seq!['|'] + w;
    assert(v =~= name + rest);
    seqs::lemma_trim_start_concat(name, rest);
    let n1 = seqs::trim_start(name);
    let a = n1 + seq!['|'] + dec + seq!['|'];
    assert(n1 + rest =~= a + w);
    seqs::lemma_trim_end_concat(a, w);
    let w1 = seqs::trim_end(w);
    let value = a + w1;
    assert(seqs::trim(v) == value);
    lemma_trim_start_free(name, '|');
    assert(value =~= n1 + seq!['|'] + (dec + seq!['|'] + w1));
    seqs::lemma_split_first(n1, dec + seq!['|'] + w1, '|');
    seqs::lemma_split_first(dec, w1, '|');
    seqs::lemma_trim_after_one(name);
    lemma_trim_trim(name);
    assert(fresh(id as usize, seqs::trim(n1), q.max_active) == fresh(id as usize, name, q.max_active));
}

/// A status is saved as a word with no separator or whitespace in it.
proof fn lemma_status_word(st: StatusView)
    ensures
        seqs::free_of(word_of_status(st), '|'),
        seqs::free_of(word_of_status(st), '\n'),
        seqs::trim(word_of_status(st)) == word_of_status(st),
{
    reveal_strlit("done");
    reveal_strlit("cancelled");
    reveal_strlit("failed");
    reveal_strlit("queued");
    let w = word_of_status(st);
    assert forall|i: int| 0 <= i < w.len() implies 'a' <= #[trigger] w[i] <= 'z' by {}
    seqs::lemma_trim_ends(w);
}

/// A download line's value reads back as the download, with no settings or
/// process yet.
proof fn lemma_download_value(d: SavedView)
    requires
        clean_saved(d),
    ensures
        download_of(
            seqs::trim(
                seqs::decimal(d.queue as nat) + seq!['|'] + word_of_status(d.status) + seq!['|'] + d.percent
                    + seq!['|'] + d.url,
            ),
        ) == Some(
            SavedView {
                over: no_over(),
                pid: None,
                ..restored_download(d)
            },
        ),
{
    let dec = seqs::decimal(d.queue as nat);
    let word = word_of_status(d.status);
    lemma_decimal_plain(d.queue as nat, usize::MAX as nat);
    lemma_status_word(d.status);
    let a = dec + seq!['|'] + word + seq!['|'] + d.percent + seq!['|'];
    let v = a + d.url;
    assert(v[0] == dec[0]);
    assert(seqs::trim_start(v) == v);
    seqs::lemma_trim_end_concat(a, d.url);
    let u1 = seqs::trim_end(d.url);
    let value = a + u1;
    assert(seqs::trim(v) == value);
    assert(value =~= dec + seq!['|'] + (word + seq!['|'] + (d.percent + seq!['|'] + u1)));
    seqs::lemma_split_first(dec, word + seq!['|'] + (d.percent + seq!['|'] + u1), '|');
    seqs::lemma_split_first(word, d.percent + seq!['|'] + u1, '|');
    seqs::lemma_split_first(d.percent, u1, '|');
    seqs::lemma_trim_after_one(d.url);
}

/// A settings line's value reads back as the settings, trimmed.
proof fn lemma_over_value(o: OverView)
    requires
        seqs::free_of(o.dir, '|'),
        seqs::free_of(o.name, '|'),
        seqs::free_of(o.rate, '|'),
        seqs::free_of(o.backend, '|'),
    ensures
        over_of(
            seqs::trim(
                o.dir + seq!['|'] + o.name + seq!['|'] + o.rate + seq!['|'] + o.backend + seq!['|'] + o.user,
            ),
        ) == restored_over(o),
{
    let rest = seq!['|'] + o.name + seq!['|'] + o.rate + seq!['|'] + o.backend + seq!['|'] + o.user;
    let v = o.dir + seq!['|'] + o.name + seq!['|'] + o.rate + seq!['|'] + o.backend + seq!['|'] + o.user;
    assert(v =~= o.dir + rest);
    seqs::lemma_trim_start_concat(o.dir, rest);
    let d1 = seqs::trim_start(o.dir);
    let a = d1 + seq!['|'] + o.name + seq!['|'] + o.rate + seq!['|'] + o.backend + seq!['|'];
    assert(d1 + rest =~= a + o.user);
    seqs::lemma_trim_end_concat(a, o.user);
    let u1 = seqs::trim_end(o.user);
    let value = a + u1;
    assert(seqs::trim(v) == value);
    lemma_trim_start_free(o.dir, '|');
    let r1 = o.name + seq!['|'] + (o.rate + seq!['|'] + (o.backend + seq!['|'] + u1));
    assert(value =~= d1 + seq!['|'] + r1);
    seqs::lemma_split_first(d1, r1, '|');
    seqs::lemma_split_first(o.name, o.rate + seq!['|'] + (o.backend + seq!['|'] + u1), '|');
    seqs::lemma_split_first(o.rate, o.backend + seq!['|'] + u1, '|');
    seqs::lemma_split_first(o.backend, u1, '|');
    seqs::lemma_trim_after_one(o.dir);
    seqs::lemma_trim_after_one(o.user);
    assert(over_of(value) =~= restored_over(o));
}

/// Reading the lines of `a` and then those of `b`.
proof fn lemma_state_concat(s: StateView, a: Seq<Seq<char>>, b: Seq<Seq<char>>)
    ensures
        state_from(s, a + b) == state_from(state_from(s, a), b),
    decreases b.len(),
{
    if b.len() == 0 {
        assert(a + b =~= a);
    } else {
        lemma_state_concat(s, a, b.drop_last());
        assert((a + b).drop_last() =~= a + b.drop_last());
        assert((a + b).last() == b.last());
    }
}

/// Reading one line is one step.
proof fn lemma_state_one(s: StateView, l: Seq<char>)
    ensures
        state_from(s, seq![l]) == state_step(s, l),
{
    assert(seq![l].drop_last() =~= Seq::<Seq<char>>::empty());
    assert(state_from(s, Seq::<Seq<char>>::empty()) == s);
    assert(seq![l].last() == l);
}

/// A queue's line adds the queue as the file gives it back.
proof fn lemma_queue_line(s: StateView, q: QueueView)
    requires
        clean_queue(q),
        s.queues.len() <= usize::MAX,
    ensures
        seqs::one_line(queue_line(q)),
        state_step(s, queue_line(q)) == (StateView {
            queues: s.queues.push(restored_queue(q, s.queues.len() as int)),
            ..s
        }),
{
    reveal_strlit("queue = ");
    reveal_strlit("queue");
    reveal_strlit(" = ");
    lemma_state_keys();
    let dec = seqs::decimal(q.max_active as nat);
    lemma_decimal_plain(q.max_active as nat, usize::MAX as nat);
    let v = q.name + seq!['|'] + dec + seq!['|'] + window_text(q);
    assert(queue_line(q) =~= "queue"@ + " = "@ + v);
    lemma_key_line("queue"@, v);
    lemma_queue_value(q, s.queues.len() as int);
    let a = "queue = "@ + q.name + seq!['|'] + dec + seq!['|'];
    assert forall|i: int| 0 <= i < a.len() implies a[i] != '\n' by {
        if 8 <= i < 8 + q.name.len() {
            assert(a[i] == q.name[i - 8]);
        } else if 9 + q.name.len() <= i < 9 + q.name.len() + dec.len() {
            assert(a[i] == dec[i - 9 - q.name.len()]);
        }
    }
    assert(queue_line(q) =~= a + window_text(q));
    lemma_one_line_concat(a, window_text(q));
}

/// A download's first line adds it, with no settings or process yet.
proof fn lemma_download_line(s: StateView, d: SavedView)
    requires
        clean_saved(d),
    ensures
        seqs::one_line(download_lines(d)[0]),
        state_step(s, download_lines(d)[0]) == (StateView {
            downloads: s.downloads.push(SavedView { over: no_over(), pid: None, ..restored_download(d) }),
            ..s
        }),
{
    reveal_strlit("download = ");
    reveal_strlit("download");
    reveal_strlit(" = ");
    lemma_state_keys();
    let dec = seqs::decimal(d.queue as nat);
    let word = word_of_status(d.status);
    lemma_decimal_plain(d.queue as nat, usize::MAX as nat);
    lemma_status_word(d.status);
    let v = dec + seq!['|'] + word + seq!['|'] + d.percent + seq!['|'] + d.url;
    let l = download_lines(d)[0];
    assert(l == "download = "@ + dec + seq!['|'] + word + seq!['|'] + d.percent + seq!['|'] + d.url);
    assert(l =~= "download"@ + " = "@ + v);
    lemma_key_line("download"@, v);
    lemma_download_value(d);
    let a = "download = "@ + dec + seq!['|'] + word + seq!['|'] + d.percent + seq!['|'];
    assert forall|i: int| 0 <= i < a.len() implies a[i] != '\n' by {
        let k1 = 11 + dec.len();
        let k2 = k1 + 1 + word.len();
        if 11 <= i < k1 {
            assert(a[i] == dec[i - 11]);
        } else if k1 + 1 <= i < k2 {
            assert(a[i] == word[i - k1 - 1]);
        } else if k2 + 1 <= i < k2 + 1 + d.percent.len() {
            assert(a[i] == d.percent[i - k2 - 1]);
        }
    }
    assert(l =~= a + d.url);
    lemma_one_line_concat(a, d.url);
}

/// A settings line sets the settings of the download above it.
proof fn lemma_over_line(s: StateView, d: SavedView)
    requires
        clean_saved(d),
        s.downloads.len() > 0,
    ensures
        ({
            let l = "over = "@ + d.over.dir + seq!['|'] + d.over.name + seq!['|'] + d.over.rate + seq!['|']
                + d.over.backend + seq!['|'] + d.over.user;
            &&& seqs::one_line(l)
            &&& state_step(s, l) == (StateView {
                downloads: s.downloads.update(
                    s.downloads.len() - 1,
                    SavedView { over: restored_over(d.over), ..s.downloads.last() },
                ),
                ..s
            })
        }),
{
    reveal_strlit("over = ");
    reveal_strlit("over");
    reveal_strlit(" = ");
    lemma_state_keys();
    let o = d.over;
    let v = o.dir + seq!['|'] + o.name + seq!['|'] + o.rate + seq!['|'] + o.backend + seq!['|'] + o.user;
    let l = "over = "@ + o.dir + seq!['|'] + o.name + seq!['|'] + o.rate + seq!['|'] + o.backend + seq!['|']
        + o.user;
    assert(l =~= "over"@ + " = "@ + v);
    lemma_key_line("over"@, v);
    lemma_over_value(o);
    let a = "over = "@ + o.dir + seq!['|'] + o.name + seq!['|'] + o.rate + seq!['|'] + o.backend + seq!['|'];
    assert forall|i: int| 0 <= i < a.len() implies a[i] != '\n' by {
        let k1 = 7 + o.dir.len();
        let k2 = k1 + 1 + o.name.len();
        let k3 = k2 + 1 + o.rate.len();
        if 7 <= i < k1 {
            assert(a[i] == o.dir[i - 7]);
        } else if k1 + 1 <= i < k2 {
            assert(a[i] == o.name[i - k1 - 1]);
        } else if k2 + 1 <= i < k3 {
            assert(a[i] == o.rate[i - k2 - 1]);
        } else if k3 + 1 <= i < k3 + 1 + o.backend.len() {
            assert(a[i] == o.backend[i - k3 - 1]);
        }
    }
    assert(l =~= a + o.user);
    lemma_one_line_concat(a, o.user);
}

/// A process line sets the process of the download above it.
proof fn lemma_pid_line(s: StateView, p: u32)
    requires
        s.downloads.len() > 0,
    ensures
        seqs::one_line("pid = "@ + seqs::decimal(p as nat)),
        state_step(s, "pid = "@ + seqs::decimal(p as nat)) == (StateView {
            downloads: s.downloads.update(s.downloads.len() - 1, SavedView { pid: Some(p), ..s.downloads.last() }),
            ..s
        }),
{
    reveal_strlit("pid = ");
    reveal_strlit("pid");
    reveal_strlit(" = ");
    lemma_state_keys();
    let dec = seqs::decimal(p as nat);
    lemma_decimal_plain(p as nat, 0xffff_ffff);
    assert("pid = "@ + dec =~= "pid"@ + " = "@ + dec);
    lemma_key_line("pid"@, dec);
    let a = "pid = "@;
    assert forall|i: int| 0 <= i < a.len() implies a[i] != '\n' by {}
    lemma_one_line_concat(a, dec);
}

/// A download's lines add it as the file gives it back.
proof fn lemma_download_block(s: StateView, d: SavedView)
    requires
        clean_saved(d),
    ensures
        state_from(s, download_lines(d)) == (StateView { downloads: s.downloads.push(restored_download(d)), ..s }),
        forall|m: int| 0 <= m < download_lines(d).len() ==> seqs::one_line(#[trigger] download_lines(d)[m]),
{
    let o = d.over;
    let dl = download_lines(d)[0];
    let ol = "over = "@ + o.dir + seq!['|'] + o.name + seq!['|'] + o.rate + seq!['|'] + o.backend + seq!['|']
        + o.user;
    let ov: Seq<Seq<char>> = if over_empty(o) {
        seq![]
    } else {
        seq![ol]
    };
    let pv: Seq<Seq<char>> = match d.pid {
        Some(p) => seq!["pid = "@ + seqs::decimal(p as nat)],
        None => seq![],
    };
    assert(download_lines(d) == seq![dl] + ov + pv);
    lemma_download_line(s, d);
    lemma_state_one(s, dl);
    let s1 = StateView {
        downloads: s.downloads.push(SavedView { over: no_over(), pid: None, ..restored_download(d) }),
        ..s
    };
    let s2 = StateView { downloads: s.downloads.push(SavedView { pid: None, ..restored_download(d) }), ..s };
    if over_empty(o) {
        let e = Seq::<char>::empty();
        assert(seqs::trim(e) =~= e);
        assert(o.dir =~= e && o.name =~= e && o.rate =~= e && o.backend =~= e && o.user =~= e);
        assert(restored_over(o) =~= no_over());
        assert(state_from(s1, ov) == s1);
        assert(s1 =~= s2);
    } else {
        lemma_over_line(s1, d);
        lemma_state_one(s1, ol);
        assert(state_from(s1, ov) =~= s2);
    }
    lemma_state_concat(s, seq![dl], ov);
    lemma_state_concat(s, seq![dl] + ov, pv);
    match d.pid {
        Some(p) => {
            lemma_pid_line(s2, p);
            lemma_state_one(s2, "pid = "@ + seqs::decimal(p as nat));
            assert(state_from(s2, pv) =~= StateView { downloads: s.downloads.push(restored_download(d)), ..s });
        },
        None => {
            assert(state_from(s2, pv) == s2);
            assert(s2 =~= StateView { downloads: s.downloads.push(restored_download(d)), ..s });
        },
    }
    assert forall|m: int| 0 <= m < download_lines(d).len() implies seqs::one_line(#[trigger] download_lines(d)[m]) by {
        if m > 0 {
            if !over_empty(o) {
                lemma_over_line(s1, d);
            }
            if let Some(p) = d.pid {
                lemma_pid_line(s2, p);
            }
            if m < 1 + ov.len() {
                assert(download_lines(d)[m] == ov[m - 1]);
            } else {
                assert(download_lines(d)[m] == pv[m - 1 - ov.len()]);
            }
        }
    }
}

/// The downloads' lines add them all, in order.
proof fn lemma_downloads_read(s: StateView, ds: Seq<SavedView>)
    requires
        forall|k: int| 0 <= k < ds.len() ==> clean_saved(#[trigger] ds[k]),
    ensures
        state_from(s, downloads_lines(ds)) == (StateView {
            downloads: s.downloads + ds.map_values(|d: SavedView| restored_download(d)),
            ..s
        }),
        forall|m: int| 0 <= m < downloads_lines(ds).len() ==> seqs::one_line(#[trigger] downloads_lines(ds)[m]),
    decreases ds.len(),
{
    if ds.len() == 0 {
        assert(ds.map_values(|d: SavedView| restored_download(d)) =~= Seq::<SavedView>::empty());
        assert(s.downloads + Seq::<SavedView>::empty() =~= s.downloads);
    } else {
        let init = ds.drop_last();
        let d = ds.last();
        assert forall|k: int| 0 <= k < init.len() implies clean_saved(#[trigger] init[k]) by {
            assert(init[k] == ds[k]);
        }
        assert(clean_saved(ds[ds.len() - 1]));
        lemma_downloads_read(s, init);
        let before = downloads_lines(init);
        let block = download_lines(d);
        assert(downloads_lines(ds) == before + block);
        lemma_state_concat(s, before, block);
        let s1 = StateView { downloads: s.downloads + init.map_values(|d: SavedView| restored_download(d)), ..s };
        lemma_download_block(s1, d);
        assert(s1.downloads.push(restored_download(d)) =~= s.downloads + ds.map_values(
            |d: SavedView| restored_download(d),
        ));
        assert forall|m: int| 0 <= m < downloads_lines(ds).len() implies seqs::one_line(
            #[trigger] downloads_lines(ds)[m],
        ) by {
            if m < before.len() {
                assert(downloads_lines(ds)[m] == before[m]);
            } else {
                assert(downloads_lines(ds)[m] == block[m - before.len()]);
            }
        }
    }
}

/// The queues' lines add them all, in order, each with its position as id.
proof fn lemma_queues_read(s: StateView, qs: Seq<QueueView>)
    requires
        s.queues.len() == 0,
        qs.len() <= usize::MAX,
        forall|k: int| 0 <= k < qs.len() ==> clean_queue(#[trigger] qs[k]),
    ensures
        state_from(s, queues_lines(qs)) == (StateView { queues: restored_queues(qs), ..s }),
        forall|m: int| 0 <= m < queues_lines(qs).len() ==> seqs::one_line(#[trigger] queues_lines(qs)[m]),
        queues_lines(qs).len() == qs.len(),
    decreases qs.len(),
{
    if qs.len() == 0 {
        assert(restored_queues(qs) =~= s.queues);
        assert(s =~= StateView { queues: restored_queues(qs), ..s });
    } else {
        let init = qs.drop_last();
        let q = qs.last();
        assert forall|k: int| 0 <= k < init.len() implies clean_queue(#[trigger] init[k]) by {
            assert(init[k] == qs[k]);
        }
        assert(clean_queue(qs[qs.len() - 1]));
        lemma_queues_read(s, init);
        let before = queues_lines(init);
        assert(queues_lines(qs) == before.push(queue_line(q)));
        assert(before.push(queue_line(q)).drop_last() =~= before);
        assert(before.push(queue_line(q)).last() == queue_line(q));
        let s1 = StateView { queues: restored_queues(init), ..s };
        lemma_queue_line(s1, q);
        assert(restored_queues(init).push(restored_queue(q, init.len() as int)) =~= restored_queues(qs));
        assert forall|m: int| 0 <= m < queues_lines(qs).len() implies seqs::one_line(#[trigger] queues_lines(qs)[m]) by {
            if m < before.len() {
                assert(queues_lines(qs)[m] == before[m]);
            }
        }
    }
}

/// The directory line and the glyph line.
proof fn lemma_head_read(dir: Seq<char>, nerd: bool)
    requires
        clean_dir(dir),
    ensures
        ({
            let head = seq!["dir = "@ + dir] + (if nerd {
                seq!["nerd = true"@]
            } else {
                seq![]
            });
            &&& seqs::one_line("dir = "@ + dir)
            &&& seqs::one_line("nerd = true"@)
            &&& state_from(empty_state(), head) == (StateView {
                dir: if seqs::trim(dir).len() > 0 {
                    Some(seqs::trim(dir))
                } else {
                    None
                },
                queues: seq![],
                downloads: seq![],
                nerd,
            })
        }),
{
    reveal_strlit("dir = ");
    reveal_strlit("dir");
    reveal_strlit(" = ");
    reveal_strlit("nerd = true");
    reveal_strlit("nerd");
    reveal_strlit("true");
    lemma_state_keys();
    let dl = "dir = "@ + dir;
    assert(dl =~= "dir"@ + " = "@ + dir);
    lemma_key_line("dir"@, dir);
    let a = "dir = "@;
    assert forall|i: int| 0 <= i < a.len() implies a[i] != '\n' by {}
    lemma_one_line_concat(a, dir);
    let s1 = StateView {
        dir: if seqs::trim(dir).len() > 0 {
            Some(seqs::trim(dir))
        } else {
            None
        },
        ..empty_state()
    };
    assert(state_step(empty_state(), dl) =~= s1);
    lemma_state_one(empty_state(), dl);
    let nl = "nerd = true"@;
    let t = "true"@;
    assert(nl =~= "nerd"@ + " = "@ + t);
    lemma_key_line("nerd"@, t);
    seqs::lemma_trim_ends(t);
    assert(state_step(s1, nl) =~= StateView { nerd: true, ..s1 });
    assert(seqs::one_line(nl));
    let nv: Seq<Seq<char>> = if nerd {
        seq![nl]
    } else {
        seq![]
    };
    lemma_state_concat(empty_state(), seq![dl], nv);
    if nerd {
        lemma_state_one(s1, nl);
    } else {
        assert(state_from(s1, nv) == s1);
    }
}

/// What `render` writes, `parse` reads back: the directory when there is
/// one, the glyph choice, each queue as its name, slots and schedule make a
/// fresh one with its position as its id, and each download with its queue,
/// the status it resumes in, its percent and url, its own settings but for
/// the password and extra arguments, and its process; for values the file
/// can hold as they are. `State::render` ensures its text is
/// `ended(state_lines(..))` of its arguments' views and `State::parse`
/// ensures its view is `state_of` of its text, so this is what
/// `State::parse(&State::render(..))` gives.
pub proof fn law_state_round_trip(dir: Seq<char>, qs: Seq<QueueView>, ds: Seq<SavedView>, nerd: bool)
    requires
        clean_dir(dir),
        qs.len() <= usize::MAX,
        forall|k: int| 0 <= k < qs.len() ==> clean_queue(#[trigger] qs[k]),
        forall|k: int| 0 <= k < ds.len() ==> clean_saved(#[trigger] ds[k]),
    ensures
        state_of(seqs::ended(state_lines(dir, qs, ds, nerd))) == restored_state(dir, qs, ds, nerd),
{
    let head = seq!["dir = "@ + dir] + (if nerd {
        seq!["nerd = true"@]
    } else {
        seq![]
    });
    let ql = queues_lines(qs);
    let dl = downloads_lines(ds);
    let all = state_lines(dir, qs, ds, nerd);
    assert(all == head + ql + dl);
    lemma_head_read(dir, nerd);
    let s1 = state_from(empty_state(), head);
    lemma_queues_read(s1, qs);
    let s2 = StateView { queues: restored_queues(qs), ..s1 };
    lemma_downloads_read(s2, ds);
    lemma_state_concat(empty_state(), head, ql);
    lemma_state_concat(empty_state(), head + ql, dl);
    assert forall|m: int| 0 <= m < all.len() implies seqs::one_line(#[trigger] all[m]) by {
        if m < head.len() {
            assert(all[m] == head[m]);
            if m == 0 {
                assert(head[m] == "dir = "@ + dir);
            } else {
                assert(head[m] == "nerd = true"@);
            }
        } else if m < head.len() + ql.len() {
            assert(all[m] == ql[m - head.len()]);
        } else {
            assert(all[m] == dl[m - head.len() - ql.len()]);
        }
    }
    seqs::lemma_lines_ended(all);
    assert(Seq::<SavedView>::empty() + ds.map_values(|d: SavedView| restored_download(d)) =~= ds.map_values(
        |d: SavedView| restored_download(d),
    ));
    assert(state_of(seqs::ended(all)) =~= restored_state(dir, qs, ds, nerd));
}

} // verus!
