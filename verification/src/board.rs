//! The download list and its queues: which rows are shown, which one is
//! selected, which waiting row starts next, and how queues are made,
//! renamed, reordered and removed. Processes are the caller's: every
//! operation here only decides, and says what has to be started, stopped or
//! signalled.
use vstd::prelude::*;

use crate::backend::{named, pick, picked, registry, tool_name, Tool};
use crate::download::{filter_shows, over_view, status_view, Filter, OverView, Overrides, Status, StatusView};
use crate::rule::{fill_of, matches_of, rule_captures, Rule, RuleView};
use crate::utils::strings;
use crate::state::SavedDownload;
use crate::queue::{fresh, respecified, Queue, QueueView, DEFAULT};
use crate::seqs;
use crate::text;

verus! {

/// One row of the list.
pub struct Download {
    /// Stable across removals: reports from a running transfer name this,
    /// not a position.
    pub id: usize,
    /// The queue this download belongs to, by id.
    pub queue: usize,
    pub url: String,
    pub backend: &'static str,
    pub status: Status,
    /// The last progress report's percent, as printed.
    pub percent: String,
    /// The last progress report's speed, as printed.
    pub speed: String,
    pub over: Overrides,
    /// Where the file landed, once a backend names it.
    pub path: Option<String>,
    /// The process running it, while one is.
    pub pid: Option<u32>,
    /// Automatic retries spent on it.
    pub tries: u8,
}

/// The list, its queues and what is on screen.
pub struct Board {
    pub downloads: Vec<Download>,
    /// Index into `downloads` of the selected row.
    pub selected: usize,
    pub filter: Filter,
    pub queues: Vec<Queue>,
    /// Index into `queues` of the queue being viewed; new downloads land here.
    pub current: usize,
    pub next_id: usize,
    pub next_queue_id: usize,
}

// ---------------------------------------------------------------------------
// What a board is
// ---------------------------------------------------------------------------

/// Queue ids are distinct, all below the next one handed out, and the
/// default queue is among them.
pub open spec fn queues_ok(qs: Seq<Queue>, next: usize) -> bool {
    &&& qs.len() >= 1
    &&& exists|i: int| 0 <= i < qs.len() && (#[trigger] qs[i]).id == DEFAULT
    &&& forall|i: int| 0 <= i < qs.len() ==> (#[trigger] qs[i]).id < next
    &&& forall|i: int, j: int| 0 <= i < qs.len() && 0 <= j < qs.len() && i != j ==> (#[trigger] qs[i]).id != (#[trigger] qs[j]).id
}

/// Download ids are all below the next one handed out.
pub open spec fn ids_below(ds: Seq<Download>, next: usize) -> bool {
    forall|i: int| 0 <= i < ds.len() ==> (#[trigger] ds[i]).id < next
}

impl Board {
    /// A board the operations keep: its queues are sound, the viewed one
    /// exists, and fresh ids are fresh.
    pub open spec fn wf(&self) -> bool {
        &&& queues_ok(self.queues@, self.next_queue_id)
        &&& self.current < self.queues@.len()
        &&& ids_below(self.downloads@, self.next_id)
    }

    /// The id of the queue being viewed.
    pub open spec fn current_id(&self) -> usize {
        self.queues@[self.current as int].id
    }
}

// ---------------------------------------------------------------------------
// What is shown
// ---------------------------------------------------------------------------

/// Indices of the rows in queue `q` that filter `f` shows, in list order.
pub open spec fn visible_of(ds: Seq<Download>, q: usize, f: Filter) -> Seq<usize>
    decreases ds.len(),
{
    if ds.len() == 0 {
        seq![]
    } else {
        let before = visible_of(ds.drop_last(), q, f);
        let d = ds.last();
        if d.queue == q && filter_shows(f, d.status) {
            before.push((ds.len() - 1) as usize)
        } else {
            before
        }
    }
}

/// Every shown index is a row, and they rise strictly.
pub proof fn lemma_visible_sorted(ds: Seq<Download>, q: usize, f: Filter)
    requires
        ds.len() <= usize::MAX,
    ensures
        forall|k: int| 0 <= k < visible_of(ds, q, f).len() ==> (#[trigger] visible_of(ds, q, f)[k]) < ds.len(),
        forall|a: int, b: int| 0 <= a < b < visible_of(ds, q, f).len() ==> (#[trigger] visible_of(ds, q, f)[a]) < (#[trigger] visible_of(ds, q, f)[b]),
    decreases ds.len(),
{
    if ds.len() > 0 {
        lemma_visible_sorted(ds.drop_last(), q, f);
        let before = visible_of(ds.drop_last(), q, f);
        let v = visible_of(ds, q, f);
        let d = ds.last();
        if d.queue == q && filter_shows(f, d.status) {
            assert(v == before.push((ds.len() - 1) as usize));
            assert forall|k: int| 0 <= k < v.len() implies (#[trigger] v[k]) < ds.len() by {
                if k < before.len() {
                    assert(v[k] == before[k]);
                }
            }
            assert forall|a: int, b: int| 0 <= a < b < v.len() implies (#[trigger] v[a]) < (#[trigger] v[b]) by {
                assert(v[a] == before[a]);
                if b < before.len() {
                    assert(v[b] == before[b]);
                } else {
                    assert(before[a] < ds.drop_last().len());
                }
            }
        } else {
            assert(v == before);
        }
    }
}

/// A row is shown exactly when it is in the queue and passes the filter.
pub proof fn lemma_visible_has(ds: Seq<Download>, q: usize, f: Filter, i: int)
    requires
        0 <= i < ds.len(),
        ds.len() <= usize::MAX,
    ensures
        visible_of(ds, q, f).contains(i as usize) <==> (ds[i].queue == q && filter_shows(f, ds[i].status)),
    decreases ds.len(),
{
    lemma_visible_sorted(ds.drop_last(), q, f);
    if i < ds.len() - 1 {
        lemma_visible_has(ds.drop_last(), q, f, i);
        assert(ds.drop_last()[i] == ds[i]);
        let before = visible_of(ds.drop_last(), q, f);
        if visible_of(ds, q, f) != before {
            assert(visible_of(ds, q, f) == before.push((ds.len() - 1) as usize));
            if before.contains(i as usize) {
                let k = choose|k: int| 0 <= k < before.len() && before[k] == i as usize;
                assert(visible_of(ds, q, f)[k] == i as usize);
            }
            if visible_of(ds, q, f).contains(i as usize) {
                let k = choose|k: int| 0 <= k < visible_of(ds, q, f).len() && visible_of(ds, q, f)[k] == i as usize;
                assert(k < before.len());
                assert(before[k] == i as usize);
            }
        }
    } else {
        let before = visible_of(ds.drop_last(), q, f);
        if ds[i].queue == q && filter_shows(f, ds[i].status) {
            assert(visible_of(ds, q, f)[before.len() as int] == i as usize);
        } else {
            if before.contains(i as usize) {
                let k = choose|k: int| 0 <= k < before.len() && before[k] == i as usize;
                assert(before[k] < ds.drop_last().len());
            }
        }
    }
}

/// The first place `x` stands in `s`.
pub open spec fn first_index(s: Seq<usize>, x: usize) -> Option<int>
    decreases s.len(),
{
    if s.len() == 0 {
        None
    } else if s[0] == x {
        Some(0)
    } else {
        match first_index(s.drop_first(), x) {
            Some(k) => Some(k + 1),
            None => None,
        }
    }
}

/// The last element of `s` at or below `x`.
pub open spec fn last_at_most(s: Seq<usize>, x: usize) -> Option<usize>
    decreases s.len(),
{
    if s.len() == 0 {
        None
    } else if s.last() <= x {
        Some(s.last())
    } else {
        last_at_most(s.drop_last(), x)
    }
}

/// `v` held within `lo..=hi`.
pub open spec fn clamped(v: int, lo: int, hi: int) -> int {
    if v < lo {
        lo
    } else if v > hi {
        hi
    } else {
        v
    }
}

/// The selection after moving `delta` rows within `vis`: from where it is,
/// or from the top when it is not on a shown row, and never past either
/// end. Nothing moves when nothing is shown.
pub open spec fn moved_within(vis: Seq<usize>, sel: usize, delta: int) -> usize {
    if vis.len() == 0 {
        sel
    } else {
        let at = match first_index(vis, sel) {
            Some(k) => k,
            None => 0,
        };
        vis[clamped(at + delta, 0, vis.len() - 1)]
    }
}

/// The selection once `vis` is what is shown: kept when shown, else the
/// nearest shown row above it, else the first shown, else 0.
pub open spec fn clamped_into(vis: Seq<usize>, sel: usize) -> usize {
    if vis.contains(sel) {
        sel
    } else {
        match last_at_most(vis, sel) {
            Some(i) => i,
            None => if vis.len() > 0 {
                vis[0]
            } else {
                0
            },
        }
    }
}

/// The selection once a filter changes what is shown: kept when shown, else
/// the first shown row, else 0.
pub open spec fn refiltered(vis: Seq<usize>, sel: usize) -> usize {
    if vis.contains(sel) {
        sel
    } else if vis.len() > 0 {
        vis[0]
    } else {
        0
    }
}

impl Board {
    /// The rows on screen: the viewed queue's, under the filter.
    pub open spec fn shown(&self) -> Seq<usize> {
        visible_of(self.downloads@, self.current_id(), self.filter)
    }
}

/// Where `x` first stands in `s`, by a walk from the front.
fn find_in(s: &Vec<usize>, x: usize) -> (r: Option<usize>)
    ensures
        match r {
            Some(k) => first_index(s@, x) == Some(k as int),
            None => first_index(s@, x) is None,
        },
{
    let mut i: usize = 0;
    while i < s.len()
        invariant
            i <= s@.len(),
            forall|k: int| 0 <= k < i ==> s@[k] != x,
        decreases s@.len() - i,
    {
        if s[i] == x {
            proof {
                lemma_first_index_at(s@, x, i as int);
            }
            return Some(i);
        }
        i += 1;
    }
    proof {
        lemma_first_index_none(s@, x);
    }
    None
}

proof fn lemma_first_index_at(s: Seq<usize>, x: usize, i: int)
    requires
        0 <= i < s.len(),
        s[i] == x,
        forall|k: int| 0 <= k < i ==> s[k] != x,
    ensures
        first_index(s, x) == Some(i),
    decreases i,
{
    if i > 0 {
        assert forall|k: int| 0 <= k < i - 1 implies s.drop_first()[k] != x by {
            assert(s.drop_first()[k] == s[k + 1]);
        }
        lemma_first_index_at(s.drop_first(), x, i - 1);
    }
}

proof fn lemma_first_index_none(s: Seq<usize>, x: usize)
    requires
        forall|k: int| 0 <= k < s.len() ==> s[k] != x,
    ensures
        first_index(s, x) is None,
        !s.contains(x),
    decreases s.len(),
{
    if s.len() > 0 {
        assert forall|k: int| 0 <= k < s.len() - 1 implies s.drop_first()[k] != x by {
            assert(s.drop_first()[k] == s[k + 1]);
        }
        lemma_first_index_none(s.drop_first(), x);
    }
}

proof fn lemma_first_index_some(s: Seq<usize>, x: usize)
    ensures
        first_index(s, x) matches Some(k) ==> 0 <= k < s.len() && s[k] == x,
        s.contains(x) <==> first_index(s, x) is Some,
    decreases s.len(),
{
    if s.len() > 0 {
        lemma_first_index_some(s.drop_first(), x);
        if s[0] != x && s.drop_first().contains(x) {
            let k = choose|k: int| 0 <= k < s.drop_first().len() && s.drop_first()[k] == x;
            assert(s[k + 1] == x);
        }
        if s[0] != x && s.contains(x) {
            let k = choose|k: int| 0 <= k < s.len() && s[k] == x;
            assert(k > 0);
            assert(s.drop_first()[k - 1] == x);
        }
        match first_index(s.drop_first(), x) {
            Some(k) => {
                assert(s.drop_first()[k] == s[k + 1]);
            },
            None => {},
        }
    }
}

/// The last element of `s` at or below `x`, by a walk from the back.
fn last_at_most_in(s: &Vec<usize>, x: usize) -> (r: Option<usize>)
    ensures
        r == last_at_most(s@, x),
{
    let mut k: usize = s.len();
    proof {
        assert(s@.take(k as int) =~= s@);
    }
    while k > 0
        invariant
            k <= s@.len(),
            last_at_most(s@, x) == last_at_most(s@.take(k as int), x),
        decreases k,
    {
        proof {
            assert(s@.take(k as int).drop_last() =~= s@.take(k - 1));
            assert(s@.take(k as int).last() == s@[k - 1]);
        }
        if s[k - 1] <= x {
            return Some(s[k - 1]);
        }
        k -= 1;
    }
    proof {
        assert(s@.take(0) =~= Seq::<usize>::empty());
    }
    None
}

impl Board {
    /// Indices of the downloads shown: the current queue, current filter.
    pub fn visible(&self) -> (r: Vec<usize>)
        requires
            self.wf(),
        ensures
            r@ == self.shown(),
    {
        let q = self.queues[self.current].id;
        let mut r: Vec<usize> = Vec::new();
        let mut i: usize = 0;
        while i < self.downloads.len()
            invariant
                self.wf(),
                q == self.current_id(),
                i <= self.downloads@.len(),
                r@ == visible_of(self.downloads@.take(i as int), q, self.filter),
            decreases self.downloads@.len() - i,
        {
            proof {
                assert(self.downloads@.take(i + 1).drop_last() =~= self.downloads@.take(i as int));
                assert(self.downloads@.take(i + 1).last() == self.downloads@[i as int]);
            }
            if self.downloads[i].queue == q && self.filter.matches(&self.downloads[i].status) {
                r.push(i);
            }
            i += 1;
        }
        proof {
            assert(self.downloads@.take(self.downloads@.len() as int) =~= self.downloads@);
        }
        r
    }

    /// Move the selection `delta` rows within the visible subset.
    pub fn move_selection(&mut self, delta: i64)
        requires
            old(self).wf(),
        ensures
            final(self).wf(),
            final(self).selected == moved_within(old(self).shown(), old(self).selected, delta as int),
            final(self).downloads@ == old(self).downloads@,
            final(self).queues@ == old(self).queues@,
            final(self).current == old(self).current,
            final(self).filter == old(self).filter,
            final(self).next_id == old(self).next_id,
            final(self).next_queue_id == old(self).next_queue_id,
    {
        let vis = self.visible();
        if vis.len() == 0 {
            return;
        }
        let at: usize = match find_in(&vis, self.selected) {
            Some(k) => k,
            None => 0,
        };
        let last = vis.len() - 1;
        let to: i128 = at as i128 + delta as i128;
        let next: usize = if to < 0 { 0 } else if to > last as i128 { last } else { to as usize };
        proof {
            lemma_first_index_some(vis@, self.selected);
            let k = match first_index(vis@, self.selected) { Some(k) => k, None => 0 };
            assert(k == at as int);
            assert(next as int == clamped(at + delta, 0, vis@.len() - 1));
        }
        self.selected = vis[next];
    }

    /// Show another filter, keeping the selection on a row that is shown.
    pub fn set_filter(&mut self, filter: Filter)
        requires
            old(self).wf(),
        ensures
            final(self).wf(),
            final(self).filter == filter,
            final(self).selected == refiltered(visible_of(old(self).downloads@, old(self).current_id(), filter), old(self).selected),
            final(self).downloads@ == old(self).downloads@,
            final(self).queues@ == old(self).queues@,
            final(self).current == old(self).current,
            final(self).next_id == old(self).next_id,
            final(self).next_queue_id == old(self).next_queue_id,
    {
        self.filter = filter;
        let vis = self.visible();
        match find_in(&vis, self.selected) {
            Some(_) => {
                proof {
                    lemma_first_index_some(vis@, self.selected);
                }
            },
            None => {
                proof {
                    lemma_first_index_some(vis@, self.selected);
                }
                self.selected = if vis.len() > 0 { vis[0] } else { 0 };
            },
        }
    }

    /// Anything that changes which rows are visible calls this, or the
    /// selection could point at a filtered-out or deleted row.
    pub fn clamp_selection(&mut self)
        requires
            old(self).wf(),
        ensures
            final(self).wf(),
            final(self).selected == clamped_into(old(self).shown(), old(self).selected),
            final(self).downloads@ == old(self).downloads@,
            final(self).queues@ == old(self).queues@,
            final(self).current == old(self).current,
            final(self).filter == old(self).filter,
            final(self).next_id == old(self).next_id,
            final(self).next_queue_id == old(self).next_queue_id,
    {
        let vis = self.visible();
        proof {
            lemma_first_index_some(vis@, self.selected);
        }
        if find_in(&vis, self.selected).is_some() {
            return;
        }
        match last_at_most_in(&vis, self.selected) {
            Some(i) => {
                self.selected = i;
                return;
            },
            None => {},
        }
        self.selected = if vis.len() > 0 { vis[0] } else { 0 };
    }
}


// ---------------------------------------------------------------------------
// What runs next
// ---------------------------------------------------------------------------

/// How many rows of queue `q` have a status `pick` picks.
pub open spec fn count_in(ds: Seq<Download>, q: usize, running: bool) -> nat
    decreases ds.len(),
{
    if ds.len() == 0 {
        0
    } else {
        let d = ds.last();
        count_in(ds.drop_last(), q, running) + if d.queue == q && (if running {
            d.status is Running
        } else {
            d.status is Queued
        }) {
            1nat
        } else {
            0nat
        }
    }
}

/// The first waiting row of queue `q` at or after `i`: rows start oldest
/// first, and the list's order is their age.
pub open spec fn first_queued(ds: Seq<Download>, q: usize, i: int) -> Option<int>
    decreases ds.len() - i,
{
    if i < 0 || i >= ds.len() {
        None
    } else if ds[i].queue == q && ds[i].status is Queued {
        Some(i)
    } else {
        first_queued(ds, q, i + 1)
    }
}

/// The row to start next, looking at the queues in order from `i`: the
/// oldest waiting row of the first queue that is not paused and has a free
/// slot. Queues run independently of each other.
pub open spec fn startable(qs: Seq<Queue>, ds: Seq<Download>, i: int) -> Option<int>
    decreases qs.len() - i,
{
    if i < 0 || i >= qs.len() {
        None
    } else if !qs[i].paused && count_in(ds, qs[i].id, true) < qs[i].max_active && first_queued(ds, qs[i].id, 0) is Some {
        first_queued(ds, qs[i].id, 0)
    } else {
        startable(qs, ds, i + 1)
    }
}

proof fn lemma_first_queued(ds: Seq<Download>, q: usize, i: int)
    requires
        0 <= i,
    ensures
        first_queued(ds, q, i) is Some ==> i <= first_queued(ds, q, i).unwrap() < ds.len(),
        first_queued(ds, q, i) is Some ==> ds[first_queued(ds, q, i).unwrap()].queue == q,
        first_queued(ds, q, i) is Some ==> ds[first_queued(ds, q, i).unwrap()].status is Queued,
    decreases ds.len() - i,
{
    if i < ds.len() {
        lemma_first_queued(ds, q, i + 1);
    }
}

proof fn lemma_startable(qs: Seq<Queue>, ds: Seq<Download>, i: int)
    requires
        0 <= i,
    ensures
        startable(qs, ds, i) matches Some(k) ==> 0 <= k < ds.len() && ds[k].status is Queued,
    decreases qs.len() - i,
{
    if i < qs.len() {
        lemma_startable(qs, ds, i + 1);
        lemma_first_queued(ds, qs[i].id, 0);
    }
}

/// What a pause key does to one row, and what has to be signalled for it.
#[derive(Debug, Clone, Copy, PartialEq, Eq)]
pub enum Toggle {
    /// Not running and not paused: nothing happens.
    Nothing,
    /// Freeze the process, if there is one.
    Stop(Option<u32>),
    /// Thaw the process.
    Cont(u32),
    /// Paused across a restart, with no process left: back in the queue.
    Requeue,
}

/// What the pause key does to a row with this status and process.
pub open spec fn toggle_of(status: Status, pid: Option<u32>) -> Toggle {
    match status {
        Status::Running => Toggle::Stop(pid),
        Status::Paused => match pid {
            Some(p) => Toggle::Cont(p),
            None => Toggle::Requeue,
        },
        _ => Toggle::Nothing,
    }
}

/// The status a row ends with once its toggle was carried out; `sent` is
/// whether the signal went through (there being no process to signal
/// counts as success).
pub open spec fn toggled(status: Status, pid: Option<u32>, sent: bool) -> Status {
    match toggle_of(status, pid) {
        Toggle::Stop(_) => if sent {
            Status::Paused
        } else {
            status
        },
        Toggle::Cont(_) => if sent {
            Status::Running
        } else {
            status
        },
        Toggle::Requeue => Status::Queued,
        Toggle::Nothing => status,
    }
}

impl Board {
    /// How many downloads of queue `queue` are running.
    pub fn active_in(&self, queue: usize) -> (r: usize)
        ensures
            r == count_in(self.downloads@, queue, true),
    {
        self.count(queue, true)
    }

    /// How many downloads of queue `queue` are waiting.
    pub fn queued_in(&self, queue: usize) -> (r: usize)
        ensures
            r == count_in(self.downloads@, queue, false),
    {
        self.count(queue, false)
    }

    fn count(&self, queue: usize, running: bool) -> (r: usize)
        ensures
            r == count_in(self.downloads@, queue, running),
    {
        let mut n: usize = 0;
        let mut i: usize = 0;
        while i < self.downloads.len()
            invariant
                i <= self.downloads@.len(),
                n == count_in(self.downloads@.take(i as int), queue, running),
                n <= i,
            decreases self.downloads@.len() - i,
        {
            proof {
                assert(self.downloads@.take(i + 1).drop_last() =~= self.downloads@.take(i as int));
                assert(self.downloads@.take(i + 1).last() == self.downloads@[i as int]);
            }
            let d = &self.downloads[i];
            let hit = d.queue == queue && match d.status {
                Status::Running => running,
                Status::Queued => !running,
                _ => false,
            };
            if hit {
                n += 1;
            }
            i += 1;
        }
        proof {
            assert(self.downloads@.take(self.downloads@.len() as int) =~= self.downloads@);
        }
        n
    }

    /// Index of the download that should start next in `queue`, oldest first.
    pub fn next_queued(&self, queue: usize) -> (r: Option<usize>)
        ensures
            match r {
                Some(k) => first_queued(self.downloads@, queue, 0) == Some(k as int),
                None => first_queued(self.downloads@, queue, 0) is None,
            },
    {
        let mut i: usize = 0;
        while i < self.downloads.len()
            invariant
                i <= self.downloads@.len(),
                first_queued(self.downloads@, queue, 0) == first_queued(self.downloads@, queue, i as int),
            decreases self.downloads@.len() - i,
        {
            let hit = self.downloads[i].queue == queue && match self.downloads[i].status {
                Status::Queued => true,
                _ => false,
            };
            if hit {
                return Some(i);
            }
            i += 1;
        }
        None
    }

    /// The row to start now, if any: what filling every queue's free slots
    /// starts first. The caller starts it and reports back with `started`
    /// or `start_failed`, then asks again until this says `None`.
    pub fn next_to_start(&self) -> (r: Option<usize>)
        ensures
            match r {
                Some(k) => startable(self.queues@, self.downloads@, 0) == Some(k as int),
                None => startable(self.queues@, self.downloads@, 0) is None,
            },
            r matches Some(k) ==> k < self.downloads@.len() && self.downloads@[k as int].status is Queued,
    {
        proof {
            lemma_startable(self.queues@, self.downloads@, 0);
        }
        let mut i: usize = 0;
        while i < self.queues.len()
            invariant
                i <= self.queues@.len(),
                startable(self.queues@, self.downloads@, 0) == startable(self.queues@, self.downloads@, i as int),
                startable(self.queues@, self.downloads@, 0) matches Some(k) ==> 0 <= k < self.downloads@.len()
                    && self.downloads@[k].status is Queued,
            decreases self.queues@.len() - i,
        {
            let q = &self.queues[i];
            if !q.paused && self.active_in(q.id) < q.max_active {
                match self.next_queued(q.id) {
                    Some(k) => {
                        proof {
                            assert(startable(self.queues@, self.downloads@, i as int) == first_queued(self.downloads@, self.queues@[i as int].id, 0));
                            lemma_first_queued(self.downloads@, self.queues@[i as int].id, 0);
                        }
                        return Some(k);
                    },
                    None => {},
                }
            }
            i += 1;
        }
        None
    }

    /// The row's process started.
    pub fn started(&mut self, at: usize, pid: u32)
        requires
            at < old(self).downloads@.len(),
        ensures
            final(self).downloads@ == old(self).downloads@.update(at as int, Download {
                status: Status::Running,
                pid: Some(pid),
                ..old(self).downloads@[at as int]
            }),
            final(self).selected == old(self).selected,
            final(self).filter == old(self).filter,
            final(self).queues@ == old(self).queues@,
            final(self).current == old(self).current,
            final(self).next_id == old(self).next_id,
            final(self).next_queue_id == old(self).next_queue_id,
    {
        self.downloads[at].status = Status::Running;
        self.downloads[at].pid = Some(pid);
    }

    /// The row's process could not be started. It fails rather than staying
    /// queued, or filling the slots would try it forever.
    pub fn start_failed(&mut self, at: usize, reason: String)
        requires
            at < old(self).downloads@.len(),
        ensures
            final(self).downloads@ == old(self).downloads@.update(at as int, Download {
                status: Status::Failed(reason),
                ..old(self).downloads@[at as int]
            }),
            final(self).selected == old(self).selected,
            final(self).filter == old(self).filter,
            final(self).queues@ == old(self).queues@,
            final(self).current == old(self).current,
            final(self).next_id == old(self).next_id,
            final(self).next_queue_id == old(self).next_queue_id,
    {
        self.downloads[at].status = Status::Failed(reason);
    }

    /// The row a download id names, if it is still listed.
    pub fn find(&self, id: usize) -> (r: Option<usize>)
        ensures
            match r {
                Some(k) => k < self.downloads@.len() && self.downloads@[k as int].id == id
                    && forall|j: int| 0 <= j < k ==> (#[trigger] self.downloads@[j]).id != id,
                None => forall|j: int| 0 <= j < self.downloads@.len() ==> (#[trigger] self.downloads@[j]).id != id,
            },
    {
        let mut i: usize = 0;
        while i < self.downloads.len()
            invariant
                i <= self.downloads@.len(),
                forall|j: int| 0 <= j < i ==> (#[trigger] self.downloads@[j]).id != id,
            decreases self.downloads@.len() - i,
        {
            if self.downloads[i].id == id {
                return Some(i);
            }
            i += 1;
        }
        None
    }

    /// What the pause key would do to row `at`.
    pub fn toggle_for(&self, at: usize) -> (r: Toggle)
        requires
            at < self.downloads@.len(),
        ensures
            r == toggle_of(self.downloads@[at as int].status, self.downloads@[at as int].pid),
    {
        let d = &self.downloads[at];
        match d.status {
            Status::Running => Toggle::Stop(d.pid),
            Status::Paused => match d.pid {
                Some(p) => Toggle::Cont(p),
                None => Toggle::Requeue,
            },
            _ => Toggle::Nothing,
        }
    }

    /// Pause a running download, or resume a paused one, once its toggle was
    /// carried out; `sent` says whether the signal went through. A row
    /// paused across a restart has no process left, so it goes back in the
    /// queue and resumes from its partial file when its queue has a slot.
    pub fn toggle_pause(&mut self, at: usize, sent: bool)
        requires
            at < old(self).downloads@.len(),
        ensures
            final(self).downloads@ == old(self).downloads@.update(at as int, Download {
                status: toggled(old(self).downloads@[at as int].status, old(self).downloads@[at as int].pid, sent),
                ..old(self).downloads@[at as int]
            }),
            final(self).selected == old(self).selected,
            final(self).filter == old(self).filter,
            final(self).queues@ == old(self).queues@,
            final(self).current == old(self).current,
            final(self).next_id == old(self).next_id,
            final(self).next_queue_id == old(self).next_queue_id,
    {
        let t = self.toggle_for(at);
        match t {
            Toggle::Stop(_) => {
                if sent {
                    self.downloads[at].status = Status::Paused;
                }
            },
            Toggle::Cont(_) => {
                if sent {
                    self.downloads[at].status = Status::Running;
                }
            },
            Toggle::Requeue => {
                self.downloads[at].status = Status::Queued;
            },
            Toggle::Nothing => {},
        }
    }

    /// Stop the download but keep the row. True when it was still going, so
    /// its process is to be killed and its login file removed.
    pub fn cancel(&mut self, at: usize) -> (stopped: bool)
        requires
            at < old(self).downloads@.len(),
        ensures
            stopped == (old(self).downloads@[at as int].status is Running || old(self).downloads@[at as int].status is Queued
                || old(self).downloads@[at as int].status is Paused),
            stopped ==> final(self).downloads@ == old(self).downloads@.update(at as int, Download {
                status: Status::Cancelled,
                ..old(self).downloads@[at as int]
            }),
            !stopped ==> final(self).downloads@ == old(self).downloads@,
            final(self).selected == old(self).selected,
            final(self).filter == old(self).filter,
            final(self).queues@ == old(self).queues@,
            final(self).current == old(self).current,
            final(self).next_id == old(self).next_id,
            final(self).next_queue_id == old(self).next_queue_id,
    {
        let going = match self.downloads[at].status {
            Status::Running | Status::Queued | Status::Paused => true,
            _ => false,
        };
        if going {
            self.downloads[at].status = Status::Cancelled;
        }
        going
    }
}


// ---------------------------------------------------------------------------
// Rows coming and going
// ---------------------------------------------------------------------------

/// How many automatic retries queue `q` allows: its own setting, or none
/// for a queue that is gone.
pub open spec fn retry_limit(qs: Seq<Queue>, q: usize) -> u8
    decreases qs.len(),
{
    if qs.len() == 0 {
        0
    } else if qs[0].id == q {
        qs[0].retry
    } else {
        retry_limit(qs.drop_first(), q)
    }
}

/// `s` with the elements at `i` and `j` trading places.
pub open spec fn swapped<A>(s: Seq<A>, i: int, j: int) -> Seq<A> {
    s.update(i, s[j]).update(j, s[i])
}

fn swap_rows(v: &mut Vec<Download>, i: usize, j: usize)
    requires
        i < j < old(v)@.len(),
    ensures
        final(v)@ == swapped(old(v)@, i as int, j as int),
{
    let b = v.remove(j);
    let a = v.remove(i);
    v.insert(i, b);
    v.insert(j, a);
    proof {
        assert(final(v)@ =~= swapped(old(v)@, i as int, j as int)) by {
            assert(v@.len() == old(v)@.len());
        }
    }
}

impl Board {
    fn retry_of(&self, queue: usize) -> (r: u8)
        ensures
            r == retry_limit(self.queues@, queue),
    {
        let mut i: usize = 0;
        proof {
            assert(self.queues@.skip(0) =~= self.queues@);
        }
        while i < self.queues.len()
            invariant
                i <= self.queues@.len(),
                retry_limit(self.queues@, queue) == retry_limit(self.queues@.skip(i as int), queue),
            decreases self.queues@.len() - i,
        {
            proof {
                assert(self.queues@.skip(i as int).drop_first() =~= self.queues@.skip(i + 1));
                assert(self.queues@.skip(i as int)[0] == self.queues@[i as int]);
            }
            if self.queues[i].id == queue {
                return self.queues[i].retry;
            }
            i += 1;
        }
        0
    }

    /// A download that failed goes back in the queue while its queue's retry
    /// limit allows it; past that the failure sticks. True when it went back.
    pub fn retry_failed(&mut self, id: usize) -> (again: bool)
        ensures
            again <==> (exists|k: int| 0 <= k < old(self).downloads@.len() && old(self).downloads@[k].id == id
                && (forall|j: int| 0 <= j < k ==> (#[trigger] old(self).downloads@[j]).id != id)
                && old(self).downloads@[k].status is Failed
                && old(self).downloads@[k].tries < retry_limit(old(self).queues@, old(self).downloads@[k].queue)),
            again ==> exists|k: int| 0 <= k < old(self).downloads@.len() && old(self).downloads@[k].id == id
                && final(self).downloads@ == old(self).downloads@.update(k, Download {
                    status: Status::Queued,
                    tries: (old(self).downloads@[k].tries + 1) as u8,
                    ..old(self).downloads@[k]
                }),
            !again ==> final(self).downloads@ == old(self).downloads@,
            final(self).selected == old(self).selected,
            final(self).filter == old(self).filter,
            final(self).queues@ == old(self).queues@,
            final(self).current == old(self).current,
            final(self).next_id == old(self).next_id,
            final(self).next_queue_id == old(self).next_queue_id,
    {
        let at = match self.find(id) {
            Some(at) => at,
            None => {
                return false;
            },
        };
        let limit = self.retry_of(self.downloads[at].queue);
        let failed = match self.downloads[at].status {
            Status::Failed(_) => true,
            _ => false,
        };
        if !failed || self.downloads[at].tries >= limit {
            proof {
                assert forall|k: int| 0 <= k < self.downloads@.len() && self.downloads@[k].id == id
                    && (forall|j: int| 0 <= j < k ==> (#[trigger] self.downloads@[j]).id != id) implies k == at by {
                    if k < at {
                        assert(self.downloads@[k].id != id);
                    }
                    if k > at {
                        assert(self.downloads@[at as int].id != id);
                    }
                }
            }
            return false;
        }
        self.downloads[at].tries = self.downloads[at].tries + 1;
        self.downloads[at].status = Status::Queued;
        true
    }

    /// Requeue a failed or cancelled download by hand, ignoring the queue's
    /// retry limit: the user asking is the decision. Its tries start over.
    pub fn retry(&mut self, at: usize) -> (again: bool)
        requires
            at < old(self).downloads@.len(),
        ensures
            again == (old(self).downloads@[at as int].status is Failed || old(self).downloads@[at as int].status is Cancelled),
            again ==> final(self).downloads@ == old(self).downloads@.update(at as int, Download {
                status: Status::Queued,
                tries: 0,
                ..old(self).downloads@[at as int]
            }),
            !again ==> final(self).downloads@ == old(self).downloads@,
            final(self).selected == old(self).selected,
            final(self).filter == old(self).filter,
            final(self).queues@ == old(self).queues@,
            final(self).current == old(self).current,
            final(self).next_id == old(self).next_id,
            final(self).next_queue_id == old(self).next_queue_id,
    {
        let ended = match self.downloads[at].status {
            Status::Failed(_) | Status::Cancelled => true,
            _ => false,
        };
        if ended {
            self.downloads[at].tries = 0;
            self.downloads[at].status = Status::Queued;
        }
        ended
    }

    /// Forget the row; its process is the caller's to kill. Reports from a
    /// transfer are looked up by id, so removing a row cannot misroute them.
    pub fn delete(&mut self, at: usize) -> (gone: Download)
        requires
            old(self).wf(),
            at < old(self).downloads@.len(),
        ensures
            final(self).wf(),
            gone == old(self).downloads@[at as int],
            final(self).downloads@ == old(self).downloads@.remove(at as int),
            final(self).selected == clamped_into(
                visible_of(final(self).downloads@, old(self).current_id(), old(self).filter),
                old(self).selected,
            ),
            final(self).filter == old(self).filter,
            final(self).queues@ == old(self).queues@,
            final(self).current == old(self).current,
            final(self).next_id == old(self).next_id,
            final(self).next_queue_id == old(self).next_queue_id,
    {
        let gone = self.downloads.remove(at);
        proof {
            assert forall|i: int| 0 <= i < self.downloads@.len() implies (#[trigger] self.downloads@[i]).id < self.next_id by {
                if i < at {
                    assert(self.downloads@[i] == old(self).downloads@[i]);
                } else {
                    assert(self.downloads@[i] == old(self).downloads@[i + 1]);
                }
            }
        }
        self.clamp_selection();
        gone
    }

    /// Move the selected row `delta` places within what is on screen. Order
    /// is priority: the oldest waiting row is the first one listed. True
    /// when it moved.
    pub fn move_download(&mut self, delta: i64) -> (moved: bool)
        requires
            old(self).wf(),
        ensures
            final(self).wf(),
            ({
                let vis = old(self).shown();
                match first_index(vis, old(self).selected) {
                    Some(a) => {
                        let to = a + delta;
                        if 0 <= to < vis.len() && to != a {
                            &&& moved
                            &&& final(self).downloads@ == swapped(old(self).downloads@, vis[a] as int, vis[to] as int)
                            &&& final(self).selected == vis[to]
                        } else {
                            &&& !moved
                            &&& final(self).downloads@ == old(self).downloads@
                            &&& final(self).selected == old(self).selected
                        }
                    },
                    None => {
                        &&& !moved
                        &&& final(self).downloads@ == old(self).downloads@
                        &&& final(self).selected == old(self).selected
                    },
                }
            }),
            final(self).filter == old(self).filter,
            final(self).queues@ == old(self).queues@,
            final(self).current == old(self).current,
            final(self).next_id == old(self).next_id,
            final(self).next_queue_id == old(self).next_queue_id,
    {
        let rows = self.visible();
        proof {
            assert(self.downloads@.len() == self.downloads.len());
            lemma_first_index_some(rows@, self.selected);
            lemma_visible_sorted(self.downloads@, self.current_id(), self.filter);
        }
        let at = match find_in(&rows, self.selected) {
            Some(a) => a,
            None => {
                return false;
            },
        };
        let to_i: i128 = at as i128 + delta as i128;
        if to_i < 0 || to_i >= rows.len() as i128 {
            return false;
        }
        let to = to_i as usize;
        if to == at {
            return false;
        }
        let (i, j) = if rows[at] < rows[to] { (rows[at], rows[to]) } else { (rows[to], rows[at]) };
        swap_rows(&mut self.downloads, i, j);
        proof {
            assert(swapped(old(self).downloads@, rows@[at as int] as int, rows@[to as int] as int)
                =~= swapped(old(self).downloads@, i as int, j as int));
            assert forall|k: int| 0 <= k < self.downloads@.len() implies (#[trigger] self.downloads@[k]).id < self.next_id by {
                if k == i {
                    assert(self.downloads@[k] == old(self).downloads@[j as int]);
                } else if k == j {
                    assert(self.downloads@[k] == old(self).downloads@[i as int]);
                } else {
                    assert(self.downloads@[k] == old(self).downloads@[k]);
                }
            }
        }
        self.selected = rows[to];
        true
    }
}

// ---------------------------------------------------------------------------
// Queues
// ---------------------------------------------------------------------------

/// What asking for a new queue came to.
#[derive(Debug, Clone, Copy, PartialEq, Eq)]
pub enum Added {
    /// The name was blank.
    Blank,
    /// Another queue has that name.
    Taken,
    /// Made, and now the one viewed.
    Made,
}

/// What asking to remove a queue came to.
#[derive(Debug, Clone, Copy, PartialEq, Eq)]
pub enum Removed {
    /// No queue stands there.
    Missing,
    /// The default queue stays.
    Default,
    /// Gone; its downloads moved to the default queue.
    Gone,
}

/// Some queue in `qs` is called `name`, other than the one at `except`.
pub open spec fn name_taken(qs: Seq<Queue>, name: Seq<char>, except: int) -> bool {
    exists|i: int| 0 <= i < qs.len() && i != except && (#[trigger] qs[i]).name@ == name
}

/// Every row of queue `from` moved to the default queue.
pub open spec fn moved_to_default(ds: Seq<Download>, from: usize) -> Seq<Download> {
    ds.map_values(|d: Download| if d.queue == from {
        Download { queue: DEFAULT, ..d }
    } else {
        d
    })
}

fn swap_queues(v: &mut Vec<Queue>, i: usize, j: usize)
    requires
        i < j < old(v)@.len(),
    ensures
        final(v)@ == swapped(old(v)@, i as int, j as int),
{
    let b = v.remove(j);
    let a = v.remove(i);
    v.insert(i, b);
    v.insert(j, a);
    proof {
        assert(final(v)@ =~= swapped(old(v)@, i as int, j as int));
    }
}

/// Trading two queues' places keeps them sound.
proof fn lemma_swap_queues_ok(qs: Seq<Queue>, next: usize, i: int, j: int)
    requires
        queues_ok(qs, next),
        0 <= i < j < qs.len(),
    ensures
        queues_ok(swapped(qs, i, j), next),
{
    let ns = swapped(qs, i, j);
    let d = choose|k: int| 0 <= k < qs.len() && (#[trigger] qs[k]).id == DEFAULT;
    let nd = if d == i { j } else if d == j { i } else { d };
    assert(ns[nd].id == DEFAULT);
    assert forall|a: int, b: int| 0 <= a < ns.len() && 0 <= b < ns.len() && a != b implies (#[trigger] ns[a]).id != (#[trigger] ns[b]).id by {
        let oa = if a == i { j } else if a == j { i } else { a };
        let ob = if b == i { j } else if b == j { i } else { b };
        assert(ns[a] == qs[oa]);
        assert(ns[b] == qs[ob]);
    }
    assert forall|k: int| 0 <= k < ns.len() implies (#[trigger] ns[k]).id < next by {
        let ok = if k == i { j } else if k == j { i } else { k };
        assert(ns[k] == qs[ok]);
    }
}

impl Board {
    /// The queue being viewed.
    pub fn queue(&self) -> (r: &Queue)
        requires
            self.wf(),
        ensures
            *r == self.queues@[self.current as int],
    {
        &self.queues[self.current]
    }

    fn name_in_use(&self, name: &[char], except: usize) -> (r: bool)
        ensures
            r == name_taken(self.queues@, name@, except as int),
    {
        let mut i: usize = 0;
        while i < self.queues.len()
            invariant
                i <= self.queues@.len(),
                forall|k: int| 0 <= k < i && k != except ==> (#[trigger] self.queues@[k]).name@ != name@,
            decreases self.queues@.len() - i,
        {
            if i != except && text::same(text::chars_of(self.queues[i].name.as_str()).as_slice(), name) {
                return true;
            }
            i += 1;
        }
        false
    }

    /// Change how many downloads the viewed queue may run at once, held
    /// within 1 to 16: never zero, or nothing would ever run.
    pub fn set_max_active(&mut self, n: usize)
        requires
            old(self).wf(),
        ensures
            final(self).wf(),
            final(self).queues@ == old(self).queues@.update(old(self).current as int, Queue {
                max_active: clamped(n as int, 1, 16) as usize,
                ..old(self).queues@[old(self).current as int]
            }),
            final(self).downloads@ == old(self).downloads@,
            final(self).selected == old(self).selected,
            final(self).filter == old(self).filter,
            final(self).current == old(self).current,
            final(self).next_id == old(self).next_id,
            final(self).next_queue_id == old(self).next_queue_id,
    {
        let i = self.current;
        self.queues[i].max_active = if n < 1 { 1 } else if n > 16 { 16 } else { n };
        proof {
            assert(self.queues@[i as int].id == old(self).queues@[i as int].id);
            assert forall|k: int| 0 <= k < self.queues@.len() implies (#[trigger] self.queues@[k]).id == old(self).queues@[k].id by {}
            let d = choose|k: int| 0 <= k < old(self).queues@.len() && (#[trigger] old(self).queues@[k]).id == DEFAULT;
            assert(self.queues@[d].id == DEFAULT);
        }
    }

    /// Create a queue and view it. Blank and taken names are refused.
    pub fn add_queue(&mut self, name: &str) -> (r: Added)
        requires
            old(self).wf(),
            old(self).next_queue_id < usize::MAX,
        ensures
            final(self).wf(),
            r == (if seqs::trim(name@).len() == 0 {
                Added::Blank
            } else if name_taken(old(self).queues@, seqs::trim(name@), -1) {
                Added::Taken
            } else {
                Added::Made
            }),
            r is Made ==> {
                &&& final(self).queues@.len() == old(self).queues@.len() + 1
                &&& final(self).queues@.drop_last() == old(self).queues@
                &&& final(self).queues@.last()@ == fresh(old(self).next_queue_id, name@, 3)
                &&& final(self).current == old(self).queues@.len()
                &&& final(self).next_queue_id == old(self).next_queue_id + 1
                &&& final(self).selected == clamped_into(
                    visible_of(old(self).downloads@, old(self).next_queue_id, old(self).filter),
                    old(self).selected,
                )
            },
            !(r is Made) ==> final(self).queues@ == old(self).queues@ && final(self).current == old(self).current
                && final(self).selected == old(self).selected && final(self).next_queue_id == old(self).next_queue_id,
            final(self).downloads@ == old(self).downloads@,
            final(self).filter == old(self).filter,
            final(self).next_id == old(self).next_id,
    {
        let t = text::trim(text::chars_of(name).as_slice());
        if t.len() == 0 {
            return Added::Blank;
        }
        let none = self.queues.len();
        if self.name_in_use(t.as_slice(), none) {
            proof {
                let k = choose|k: int| 0 <= k < old(self).queues@.len() && k != none && (#[trigger] old(self).queues@[k]).name@ == t@;
                assert(k != -1);
            }
            return Added::Taken;
        }
        proof {
            assert(!name_taken(old(self).queues@, t@, -1)) by {
                if name_taken(old(self).queues@, t@, -1) {
                    let k = choose|k: int| 0 <= k < old(self).queues@.len() && k != -1 && (#[trigger] old(self).queues@[k]).name@ == t@;
                    assert(k != none as int);
                }
            }
        }
        let id = self.next_queue_id;
        let q = Queue::new(id, name, 3);
        self.queues.push(q);
        self.next_queue_id = id + 1;
        self.current = self.queues.len() - 1;
        proof {
            let qs = self.queues@;
            let d = choose|k: int| 0 <= k < old(self).queues@.len() && (#[trigger] old(self).queues@[k]).id == DEFAULT;
            assert(qs[d].id == DEFAULT);
            assert forall|a: int, b: int| 0 <= a < qs.len() && 0 <= b < qs.len() && a != b implies (#[trigger] qs[a]).id != (#[trigger] qs[b]).id by {
                if a < old(self).queues@.len() && b < old(self).queues@.len() {
                    assert(qs[a] == old(self).queues@[a]);
                    assert(qs[b] == old(self).queues@[b]);
                } else if a < old(self).queues@.len() {
                    assert(qs[a] == old(self).queues@[a]);
                } else {
                    assert(qs[b] == old(self).queues@[b]);
                }
            }
            assert forall|k: int| 0 <= k < qs.len() implies (#[trigger] qs[k]).id < self.next_queue_id by {
                if k < old(self).queues@.len() {
                    assert(qs[k] == old(self).queues@[k]);
                }
            }
            assert(qs.drop_last() =~= old(self).queues@);
        }
        self.clamp_selection();
        Added::Made
    }

    /// Give the queue at `at` another name. Blank and taken names are
    /// refused. True when it was renamed.
    pub fn rename_queue(&mut self, at: usize, name: &str) -> (done: bool)
        requires
            old(self).wf(),
        ensures
            final(self).wf(),
            done == (seqs::trim(name@).len() > 0 && at < old(self).queues@.len()
                && !name_taken(old(self).queues@, seqs::trim(name@), at as int)),
            done ==> final(self).queues@.len() == old(self).queues@.len()
                && final(self).queues@[at as int]@ == (QueueView { name: seqs::trim(name@), ..old(self).queues@[at as int]@ })
                && forall|k: int| 0 <= k < final(self).queues@.len() && k != at ==> (#[trigger] final(self).queues@[k]) == old(self).queues@[k],
            !done ==> final(self).queues@ == old(self).queues@,
            final(self).downloads@ == old(self).downloads@,
            final(self).selected == old(self).selected,
            final(self).filter == old(self).filter,
            final(self).current == old(self).current,
            final(self).next_id == old(self).next_id,
            final(self).next_queue_id == old(self).next_queue_id,
    {
        let t = text::trim(text::chars_of(name).as_slice());
        if t.len() == 0 || at >= self.queues.len() {
            return false;
        }
        if self.name_in_use(t.as_slice(), at) {
            return false;
        }
        self.queues[at].name = text::string_of(t.as_slice());
        proof {
            let qs = self.queues@;
            assert forall|k: int| 0 <= k < qs.len() implies (#[trigger] qs[k]).id == old(self).queues@[k].id by {}
            let d = choose|k: int| 0 <= k < old(self).queues@.len() && (#[trigger] old(self).queues@[k]).id == DEFAULT;
            assert(qs[d].id == DEFAULT);
            assert(qs[at as int]@ =~= (QueueView { name: seqs::trim(name@), ..old(self).queues@[at as int]@ }));
        }
        true
    }

    /// Remove a queue; its downloads move to the default queue rather than
    /// being dropped. The default queue itself stays.
    pub fn delete_queue(&mut self, at: usize) -> (r: Removed)
        requires
            old(self).wf(),
        ensures
            final(self).wf(),
            r == (if at >= old(self).queues@.len() {
                Removed::Missing
            } else if old(self).queues@[at as int].id == DEFAULT {
                Removed::Default
            } else {
                Removed::Gone
            }),
            r is Gone ==> {
                &&& final(self).queues@ == old(self).queues@.remove(at as int)
                &&& final(self).downloads@ == moved_to_default(old(self).downloads@, old(self).queues@[at as int].id)
                &&& final(self).current == (if old(self).current < final(self).queues@.len() {
                    old(self).current
                } else {
                    (final(self).queues@.len() - 1) as usize
                })
                &&& final(self).selected == clamped_into(final(self).shown(), old(self).selected)
            },
            !(r is Gone) ==> final(self).queues@ == old(self).queues@ && final(self).downloads@ == old(self).downloads@
                && final(self).current == old(self).current && final(self).selected == old(self).selected,
            final(self).filter == old(self).filter,
            final(self).next_id == old(self).next_id,
            final(self).next_queue_id == old(self).next_queue_id,
    {
        if at >= self.queues.len() {
            return Removed::Missing;
        }
        let id = self.queues[at].id;
        if id == DEFAULT {
            return Removed::Default;
        }
        let mut i: usize = 0;
        while i < self.downloads.len()
            invariant
                i <= self.downloads@.len(),
                self.downloads@.len() == old(self).downloads@.len(),
                self.queues@ == old(self).queues@,
                at < old(self).queues@.len(),
                id == old(self).queues@[at as int].id,
                self.next_id == old(self).next_id,
                self.next_queue_id == old(self).next_queue_id,
                self.current == old(self).current,
                self.selected == old(self).selected,
                self.filter == old(self).filter,
                forall|k: int| 0 <= k < i ==> (#[trigger] self.downloads@[k]) == moved_to_default(old(self).downloads@, id)[k],
                forall|k: int| i <= k < self.downloads@.len() ==> (#[trigger] self.downloads@[k]) == old(self).downloads@[k],
            decreases self.downloads@.len() - i,
        {
            if self.downloads[i].queue == id {
                self.downloads[i].queue = DEFAULT;
            }
            i += 1;
        }
        proof {
            assert(self.downloads@ =~= moved_to_default(old(self).downloads@, id));
            assert(ids_below(old(self).downloads@, old(self).next_id));
            assert forall|k: int| 0 <= k < self.downloads@.len() implies (#[trigger] self.downloads@[k]).id < self.next_id by {
                assert(moved_to_default(old(self).downloads@, id)[k].id == old(self).downloads@[k].id);
                assert(old(self).downloads@[k].id < old(self).next_id);
            }
        }
        self.queues.remove(at);
        proof {
            let qs = self.queues@;
            let olds = old(self).queues@;
            let d = choose|k: int| 0 <= k < olds.len() && (#[trigger] olds[k]).id == DEFAULT;
            assert(d != at);
            if d < at {
                assert(qs[d] == olds[d]);
            } else {
                assert(qs[d - 1] == olds[d]);
            }
            assert forall|a: int, b: int| 0 <= a < qs.len() && 0 <= b < qs.len() && a != b implies (#[trigger] qs[a]).id != (#[trigger] qs[b]).id by {
                let oa = if a < at { a } else { a + 1 };
                let ob = if b < at { b } else { b + 1 };
                assert(qs[a] == olds[oa]);
                assert(qs[b] == olds[ob]);
            }
            assert(queues_ok(olds, old(self).next_queue_id));
            assert forall|k: int| 0 <= k < qs.len() implies (#[trigger] qs[k]).id < self.next_queue_id by {
                if k < at {
                    assert(qs[k] == olds[k]);
                    assert(olds[k].id < old(self).next_queue_id);
                } else {
                    assert(qs[k] == olds[k + 1]);
                    assert(olds[k + 1].id < old(self).next_queue_id);
                }
            }
        }
        if self.current >= self.queues.len() {
            self.current = self.queues.len() - 1;
        }
        self.clamp_selection();
        Removed::Gone
    }

    /// Move the viewed queue `delta` places in the tab order. Downloads name
    /// queues by id, so reordering never moves a download. The ends do not
    /// wrap. True when it moved.
    pub fn move_queue(&mut self, delta: i64) -> (moved: bool)
        requires
            old(self).wf(),
        ensures
            final(self).wf(),
            ({
                let to = old(self).current + delta;
                if 0 <= to < old(self).queues@.len() {
                    &&& moved
                    &&& final(self).queues@ == swapped(old(self).queues@, old(self).current as int, to)
                    &&& final(self).current == to
                } else {
                    &&& !moved
                    &&& final(self).queues@ == old(self).queues@
                    &&& final(self).current == old(self).current
                }
            }),
            final(self).downloads@ == old(self).downloads@,
            final(self).selected == old(self).selected,
            final(self).filter == old(self).filter,
            final(self).next_id == old(self).next_id,
            final(self).next_queue_id == old(self).next_queue_id,
    {
        let cur = self.current;
        let to_i: i128 = cur as i128 + delta as i128;
        if to_i < 0 || to_i >= self.queues.len() as i128 {
            return false;
        }
        let to = to_i as usize;
        if to != cur {
            let (i, j) = if cur < to { (cur, to) } else { (to, cur) };
            swap_queues(&mut self.queues, i, j);
            proof {
                lemma_swap_queues_ok(old(self).queues@, self.next_queue_id, i as int, j as int);
                assert(swapped(old(self).queues@, i as int, j as int) =~= swapped(old(self).queues@, cur as int, to as int));
            }
        } else {
            proof {
                assert(swapped(old(self).queues@, cur as int, to as int) =~= old(self).queues@);
            }
        }
        self.current = to;
        true
    }

    /// View the queue `delta` places along, wrapping at either end.
    pub fn cycle_queue(&mut self, delta: i64)
        requires
            old(self).wf(),
        ensures
            final(self).wf(),
            final(self).current as int == (old(self).current + delta) % (old(self).queues@.len() as int),
            final(self).selected == clamped_into(final(self).shown(), old(self).selected),
            final(self).downloads@ == old(self).downloads@,
            final(self).queues@ == old(self).queues@,
            final(self).filter == old(self).filter,
            final(self).next_id == old(self).next_id,
            final(self).next_queue_id == old(self).next_queue_id,
    {
        let n = self.queues.len() as i128;
        let x = self.current as i128 + delta as i128;
        let r: i128 = match x.checked_rem_euclid(n) {
            Some(r) => r,
            None => 0,
        };
        proof {
            assert(0 <= r < n);
        }
        self.current = r as usize;
        self.clamp_selection();
    }
}

// ---------------------------------------------------------------------------
// Rows arriving
// ---------------------------------------------------------------------------

/// A row with its texts as character sequences.
pub struct RowView {
    pub id: usize,
    pub queue: usize,
    pub url: Seq<char>,
    pub backend: Seq<char>,
    pub status: StatusView,
    pub percent: Seq<char>,
    pub speed: Seq<char>,
    pub over: OverView,
    pub path: Option<Seq<char>>,
    pub pid: Option<u32>,
    pub tries: u8,
}

pub open spec fn row_view(d: Download) -> RowView {
    RowView {
        id: d.id,
        queue: d.queue,
        url: d.url@,
        backend: d.backend@,
        status: status_view(d.status),
        percent: d.percent@,
        speed: d.speed@,
        over: over_view(d.over),
        path: match d.path {
            Some(p) => Some(p@),
            None => None,
        },
        pid: d.pid,
        tries: d.tries,
    }
}

pub open spec fn row_views(ds: Seq<Download>) -> Seq<RowView> {
    ds.map_values(|d: Download| row_view(d))
}

/// The tool a name names, if any.
pub open spec fn tool_called(name: Seq<char>) -> Option<Tool> {
    if name == tool_name(Tool::Aria2) {
        Some(Tool::Aria2)
    } else if name == tool_name(Tool::YtDlp) {
        Some(Tool::YtDlp)
    } else if name == tool_name(Tool::Wget) {
        Some(Tool::Wget)
    } else {
        None
    }
}

/// The tool a download runs on: the one its settings name, else the first
/// that claims the url.
pub open spec fn tool_for(url: Seq<char>, named: Seq<char>) -> Option<Tool> {
    if named.len() == 0 {
        picked(url)
    } else {
        match tool_called(named) {
            Some(t) => Some(t),
            None => picked(url),
        }
    }
}

/// The tool a download runs on.
pub fn backend_for(url: &str, over: &Overrides) -> (r: Option<Tool>)
    ensures
        r == tool_for(url@, over.backend@),
{
    if over.backend.as_str().is_empty() {
        return pick(url);
    }
    proof {
        reveal_strlit("aria2c");
        reveal_strlit("yt-dlp");
        reveal_strlit("wget");
        assert("aria2c"@[0] == 'a' && "yt-dlp"@[0] == 'y' && "wget"@[0] == 'w');
        assert(tool_name(Tool::Aria2) != tool_name(Tool::YtDlp));
        assert(tool_name(Tool::Aria2) != tool_name(Tool::Wget));
        assert(tool_name(Tool::YtDlp) != tool_name(Tool::Wget));
    }
    match named(over.backend.as_str()) {
        Some(t) => Some(t),
        None => {
            proof {
                assert(tool_name(registry()[0]) != over.backend@);
                assert(tool_name(registry()[1]) != over.backend@);
                assert(tool_name(registry()[2]) != over.backend@);
            }
            pick(url)
        },
    }
}

/// The queues with each id kept once, the first to claim it.
pub open spec fn distinct_ids(qs: Seq<Queue>) -> Seq<Queue>
    decreases qs.len(),
{
    if qs.len() == 0 {
        seq![]
    } else {
        let before = distinct_ids(qs.drop_last());
        if has_queue(before, qs.last().id) {
            before
        } else {
            before.push(qs.last())
        }
    }
}

/// A queue with this id is among `qs`.
pub open spec fn has_queue(qs: Seq<Queue>, id: usize) -> bool {
    exists|i: int| 0 <= i < qs.len() && (#[trigger] qs[i]).id == id
}

/// The rows last session's list comes back as: ids handed out afresh from
/// `next`, a row whose queue is gone put in the default queue, a finished
/// row at 100, and a url no tool takes dropped.
pub open spec fn restored(qs: Seq<Queue>, saved: Seq<SavedDownload>, next: int) -> Seq<RowView>
    decreases saved.len(),
{
    if saved.len() == 0 {
        seq![]
    } else {
        let before = restored(qs, saved.drop_last(), next);
        let s = saved.last();
        match tool_for(s.url@, s.over.backend@) {
            None => before,
            Some(t) => before.push(RowView {
                id: (next + before.len()) as usize,
                queue: if has_queue(qs, s.queue) {
                    s.queue
                } else {
                    DEFAULT
                },
                url: s.url@,
                backend: tool_name(t),
                status: status_view(s.status),
                percent: if s.status is Done {
                    "100"@
                } else {
                    s.percent@
                },
                speed: seq![],
                over: over_view(s.over),
                path: None,
                pid: None,
                tries: 0,
            }),
        }
    }
}

proof fn lemma_restored_len(qs: Seq<Queue>, saved: Seq<SavedDownload>, next: int)
    ensures
        restored(qs, saved, next).len() <= saved.len(),
    decreases saved.len(),
{
    if saved.len() > 0 {
        lemma_restored_len(qs, saved.drop_last(), next);
    }
}

/// The first rule that routes a url on its way in: size rules wait for a
/// total, so only the others count here.
pub open spec fn first_route(rules: Seq<Rule>, url: Seq<char>, i: int) -> Option<int>
    decreases rules.len() - i,
{
    if i < 0 || i >= rules.len() {
        None
    } else if rules[i]@.min_size is None && matches_of(rules[i]@, url) {
        Some(i)
    } else {
        first_route(rules, url, i + 1)
    }
}

/// `~` at the front of a path stands for the home directory.
pub open spec fn home_expanded(path: Seq<char>, home: Seq<char>) -> Seq<char> {
    if path.len() > 0 && path[0] == '~' {
        home + path.skip(1)
    } else {
        path
    }
}

/// What rule `r`'s pattern caught in a url it matched.
pub open spec fn caught_of(r: RuleView, url: Seq<char>) -> Seq<Seq<char>> {
    match rule_captures(r, url) {
        Some(c) => c,
        None => seq![],
    }
}

/// The queue rule `r` sends a url to, with its captures filled in; none
/// when it names none, or names one its pattern cannot fill.
pub open spec fn destined_queue(r: RuleView, url: Seq<char>) -> Option<Seq<char>> {
    match r.queue {
        Some(q) => fill_of(q, caught_of(r, url)),
        None => None,
    }
}

/// The settings a url goes with once rule `r` has routed it: its directory,
/// captures filled in, unless one was typed or the pattern cannot fill it;
/// its backend when it names one.
pub open spec fn routed_over(o: OverView, r: RuleView, url: Seq<char>, home: Seq<char>) -> OverView {
    OverView {
        dir: if o.dir.len() == 0 {
            match r.directory {
                Some(d) => match fill_of(d, caught_of(r, url)) {
                    Some(f) => home_expanded(f, home),
                    None => o.dir,
                },
                None => o.dir,
            }
        } else {
            o.dir
        },
        backend: match r.backend {
            Some(b) => b,
            None => o.backend,
        },
        ..o
    }
}

/// The first queue called `name`.
pub open spec fn queue_called(qs: Seq<Queue>, name: Seq<char>, i: int) -> Option<int>
    decreases qs.len() - i,
{
    if i < 0 || i >= qs.len() {
        None
    } else if qs[i].name@ == name {
        Some(i)
    } else {
        queue_called(qs, name, i + 1)
    }
}

proof fn lemma_queue_called(qs: Seq<Queue>, name: Seq<char>, i: int)
    requires
        0 <= i,
    ensures
        queue_called(qs, name, i) is Some ==> i <= queue_called(qs, name, i).unwrap() < qs.len()
            && qs[queue_called(qs, name, i).unwrap()].name@ == name,
    decreases qs.len() - i,
{
    if i < qs.len() {
        lemma_queue_called(qs, name, i + 1);
    }
}

/// Two first rows with an id are the same row.
proof fn lemma_first_row(ds: Seq<Download>, id: usize, at: int)
    requires
        0 <= at < ds.len(),
        ds[at].id == id,
        forall|j: int| 0 <= j < at ==> (#[trigger] ds[j]).id != id,
    ensures
        forall|b: int|
            0 <= b < ds.len() && (#[trigger] ds[b]).id == id && (forall|j: int| 0 <= j < b ==> (#[trigger] ds[j]).id
                != id) ==> b == at,
{
    assert forall|b: int|
        0 <= b < ds.len() && (#[trigger] ds[b]).id == id && (forall|j: int| 0 <= j < b ==> (#[trigger] ds[j]).id
            != id) implies b == at by {
        if b < at {
            assert(ds[b].id != id);
        } else if b > at {
            assert(ds[at].id != id);
        }
    }
}

proof fn lemma_first_route(rules: Seq<Rule>, url: Seq<char>, i: int)
    requires
        0 <= i,
    ensures
        first_route(rules, url, i) is Some ==> i <= first_route(rules, url, i).unwrap() < rules.len(),
    decreases rules.len() - i,
{
    if i < rules.len() {
        lemma_first_route(rules, url, i + 1);
    }
}

impl Board {
    /// An empty list over these queues, the first one viewed. A queue whose
    /// id an earlier one already has is left out, and the default queue is
    /// put first when none of them is it: rows name queues by id.
    pub fn new(queues: Vec<Queue>) -> (r: Board)
        requires
            forall|i: int| 0 <= i < queues@.len() ==> (#[trigger] queues@[i]).id < usize::MAX,
        ensures
            r.wf(),
            r.downloads@.len() == 0,
            r.selected == 0,
            r.filter == Filter::All,
            r.current == 0,
            r.next_id == 0,
            ({
                let kept = distinct_ids(queues@);
                if has_queue(kept, DEFAULT) {
                    r.queues@ == kept
                } else {
                    r.queues@.len() == kept.len() + 1 && r.queues@[0]@ == fresh(DEFAULT, "default"@, 3)
                        && r.queues@.skip(1) == kept
                }
            }),
    {
        let mut kept: Vec<Queue> = Vec::new();
        let mut top: usize = 0;
        let mut has_default = false;
        let mut queues = queues;
        let ghost all = queues@;
        let n = queues.len();
        let mut i: usize = 0;
        while i < n
            invariant
                n == all.len(),
                i <= all.len(),
                queues@ == all.skip(i as int),
                kept@ == distinct_ids(all.take(i as int)),
                forall|k: int| 0 <= k < all.len() ==> (#[trigger] all[k]).id < usize::MAX,
                forall|k: int| 0 <= k < kept@.len() ==> (#[trigger] kept@[k]).id < top,
                has_default == has_queue(kept@, DEFAULT),
                forall|a: int, b: int| 0 <= a < kept@.len() && 0 <= b < kept@.len() && a != b
                    ==> (#[trigger] kept@[a]).id != (#[trigger] kept@[b]).id,
            decreases all.len() - i,
        {
            let q = queues.remove(0);
            proof {
                assert(q == all[i as int]);
                assert(queues@ =~= all.skip(i + 1));
                assert(all.take(i + 1).drop_last() =~= all.take(i as int));
                assert(all.take(i + 1).last() == all[i as int]);
            }
            let mut seen = false;
            let mut k: usize = 0;
            while k < kept.len()
                invariant
                    k <= kept@.len(),
                    seen == exists|j: int| 0 <= j < k && (#[trigger] kept@[j]).id == q.id,
                decreases kept@.len() - k,
            {
                if kept[k].id == q.id {
                    seen = true;
                }
                k += 1;
            }
            if !seen {
                if q.id == DEFAULT {
                    has_default = true;
                }
                if q.id + 1 > top {
                    top = q.id + 1;
                }
                let ghost before = kept@;
                kept.push(q);
                proof {
                    assert forall|a: int| 0 <= a < kept@.len() implies (#[trigger] kept@[a]).id < top by {
                        if a < before.len() {
                            assert(kept@[a] == before[a]);
                        }
                    }
                    assert forall|a: int, b: int| 0 <= a < kept@.len() && 0 <= b < kept@.len() && a != b
                        implies (#[trigger] kept@[a]).id != (#[trigger] kept@[b]).id by {
                        if a < before.len() && b < before.len() {
                            assert(kept@[a] == before[a]);
                            assert(kept@[b] == before[b]);
                        } else if a < before.len() {
                            assert(kept@[a] == before[a]);
                            assert(!(before[a].id == q.id));
                        } else {
                            assert(kept@[b] == before[b]);
                            assert(!(before[b].id == q.id));
                        }
                    }
                    if has_queue(kept@, DEFAULT) && !has_queue(before, DEFAULT) {
                        let j = choose|j: int| 0 <= j < kept@.len() && (#[trigger] kept@[j]).id == DEFAULT;
                        assert(j == before.len());
                    }
                    if has_queue(before, DEFAULT) {
                        let j = choose|j: int| 0 <= j < before.len() && (#[trigger] before[j]).id == DEFAULT;
                        assert(kept@[j].id == DEFAULT);
                    }
                    if q.id == DEFAULT {
                        assert(kept@[before.len() as int].id == DEFAULT);
                    }
                    assert(distinct_ids(all.take(i + 1)) == before.push(q));
                }
            } else {
                proof {
                    assert(distinct_ids(all.take(i + 1)) == kept@);
                }
            }
            i += 1;
        }
        proof {
            assert(all.take(all.len() as int) =~= all);
        }
        let ghost kv = kept@;
        if !has_default {
            kept.insert(0, Queue::new(DEFAULT, "default", 3));
            if top == 0 {
                top = 1;
            }
            proof {
                let qs = kept@;
                assert(qs.skip(1) =~= kv);
                assert(qs[0].id == DEFAULT);
                assert forall|a: int| 0 <= a < qs.len() implies (#[trigger] qs[a]).id < top by {
                    if a > 0 {
                        assert(qs[a] == kv[a - 1]);
                    }
                }
                assert forall|a: int, b: int| 0 <= a < qs.len() && 0 <= b < qs.len() && a != b
                    implies (#[trigger] qs[a]).id != (#[trigger] qs[b]).id by {
                    if a > 0 && b > 0 {
                        assert(qs[a] == kv[a - 1]);
                        assert(qs[b] == kv[b - 1]);
                    } else if a > 0 {
                        assert(qs[a] == kv[a - 1]);
                        assert(!has_queue(kv, DEFAULT));
                        assert(kv[a - 1].id != DEFAULT);
                    } else {
                        assert(qs[b] == kv[b - 1]);
                        assert(kv[b - 1].id != DEFAULT);
                    }
                }
            }
        }
        Board {
            downloads: Vec::new(),
            selected: 0,
            filter: Filter::All,
            queues: kept,
            current: 0,
            next_id: 0,
            next_queue_id: top,
        }
    }

    /// Whether some queue has this id.
    fn knows_queue(&self, id: usize) -> (r: bool)
        ensures
            r == has_queue(self.queues@, id),
    {
        let mut i: usize = 0;
        while i < self.queues.len()
            invariant
                i <= self.queues@.len(),
                forall|k: int| 0 <= k < i ==> (#[trigger] self.queues@[k]).id != id,
            decreases self.queues@.len() - i,
        {
            if self.queues[i].id == id {
                return true;
            }
            i += 1;
        }
        false
    }

    /// Rebuild last session's list. Ids are handed out afresh: the saved ones
    /// meant something only to processes that are gone. Unfinished rows come
    /// back as they were saved, and resume from their partial files.
    pub fn restore(&mut self, saved: &[SavedDownload])
        requires
            old(self).wf(),
            old(self).next_id + saved@.len() <= usize::MAX,
        ensures
            final(self).wf(),
            row_views(final(self).downloads@) == row_views(old(self).downloads@) + restored(
                old(self).queues@,
                saved@,
                old(self).next_id as int,
            ),
            final(self).next_id == old(self).next_id + restored(old(self).queues@, saved@, old(self).next_id as int).len(),
            final(self).queues@ == old(self).queues@,
            final(self).selected == old(self).selected,
            final(self).filter == old(self).filter,
            final(self).current == old(self).current,
            final(self).next_queue_id == old(self).next_queue_id,
    {
        let ghost start = self.next_id;
        let ghost olds = row_views(self.downloads@);
        let mut i: usize = 0;
        while i < saved.len()
            invariant
                i <= saved@.len(),
                self.wf(),
                self.queues@ == old(self).queues@,
                self.selected == old(self).selected,
                self.filter == old(self).filter,
                self.current == old(self).current,
                self.next_queue_id == old(self).next_queue_id,
                start == old(self).next_id,
                start + saved@.len() <= usize::MAX,
                olds == row_views(old(self).downloads@),
                row_views(self.downloads@) == olds + restored(old(self).queues@, saved@.take(i as int), start as int),
                self.next_id == start + restored(old(self).queues@, saved@.take(i as int), start as int).len(),
            decreases saved@.len() - i,
        {
            let s = &saved[i];
            proof {
                assert(saved@.take(i + 1).drop_last() =~= saved@.take(i as int));
                assert(saved@.take(i + 1).last() == saved@[i as int]);
                lemma_restored_len(old(self).queues@, saved@.take(i as int), start as int);
            }
            match backend_for(s.url.as_str(), &s.over) {
                None => {},
                Some(t) => {
                    let queue = if self.knows_queue(s.queue) { s.queue } else { DEFAULT };
                    let done = match s.status {
                        Status::Done => true,
                        _ => false,
                    };
                    let percent = if done {
                        String::from_str("100")
                    } else {
                        text::string_of(text::chars_of(s.percent.as_str()).as_slice())
                    };
                    let d = Download {
                        id: self.next_id,
                        queue,
                        url: text::string_of(text::chars_of(s.url.as_str()).as_slice()),
                        backend: t.name(),
                        status: s.status.copy(),
                        percent,
                        speed: String::new(),
                        over: s.over.copy(),
                        path: None,
                        pid: None,
                        tries: 0,
                    };
                    proof {
                        reveal_strlit("100");
                    }
                    let ghost before = row_views(self.downloads@);
                    let ghost pre = self.downloads@;
                    self.downloads.push(d);
                    self.next_id = self.next_id + 1;
                    proof {
                        assert(row_views(self.downloads@) =~= before.push(row_view(d)));
                        assert forall|k: int| 0 <= k < self.downloads@.len() implies (#[trigger] self.downloads@[k]).id < self.next_id by {
                            if k < pre.len() {
                                assert(self.downloads@[k] == pre[k]);
                                assert(pre[k].id < self.next_id - 1);
                            }
                        }
                    }
                },
            }
            i += 1;
        }
        proof {
            assert(saved@.take(saved@.len() as int) =~= saved@);
        }
    }
}


// ---------------------------------------------------------------------------
// Routing
// ---------------------------------------------------------------------------

/// The queue called `name` is found, or made as a fresh one with the next
/// queue id: `after`, `next_after` and `id` are what that leaves.
pub open spec fn called_or_made(
    qs: Seq<Queue>,
    next: usize,
    name: Seq<char>,
    after: Seq<Queue>,
    next_after: usize,
    id: usize,
) -> bool {
    match queue_called(qs, name, 0) {
        Some(k) => after == qs && next_after == next && id == qs[k].id,
        None => {
            &&& after.len() == qs.len() + 1
            &&& after.drop_last() == qs
            &&& after.last()@ == fresh(next, name, 3)
            &&& id == next
            &&& next_after == next + 1
        },
    }
}

/// The settings a url goes with once the rules had their say.
pub open spec fn route_over(rules: Seq<Rule>, url: Seq<char>, o: OverView, home: Seq<char>) -> OverView {
    match first_route(rules, url, 0) {
        Some(k) => routed_over(o, rules[k]@, url, home),
        None => o,
    }
}

/// The queue the rules send a url to by name, if they do.
pub open spec fn route_queue(rules: Seq<Rule>, url: Seq<char>) -> Option<Seq<char>> {
    match first_route(rules, url, 0) {
        Some(k) => destined_queue(rules[k]@, url),
        None => None,
    }
}

/// The first size rule that a url of `total` bytes satisfies.
pub open spec fn first_size_route(rules: Seq<Rule>, url: Seq<char>, total: u64, i: int) -> Option<int>
    decreases rules.len() - i,
{
    if i < 0 || i >= rules.len() {
        None
    } else if rules[i]@.min_size matches Some(min) && matches_of(rules[i]@, url) && total >= min {
        Some(i)
    } else {
        first_size_route(rules, url, total, i + 1)
    }
}

/// The id of the queue called `name`, or the id a new one would get.
pub open spec fn target_id(qs: Seq<Queue>, next: usize, name: Seq<char>) -> usize {
    match queue_called(qs, name, 0) {
        Some(k) => qs[k].id,
        None => next,
    }
}

/// Whether a known total moves download `id`: its first row has a first
/// size rule it satisfies, that rule names a queue its captures can fill,
/// and that queue is not the one the row is in.
pub open spec fn size_moves(
    ds: Seq<Download>,
    qs: Seq<Queue>,
    next: usize,
    id: usize,
    total: u64,
    rules: Seq<Rule>,
) -> bool {
    exists|at: int|
        {
            &&& 0 <= at < ds.len()
            &&& (#[trigger] ds[at]).id == id
            &&& forall|j: int| 0 <= j < at ==> (#[trigger] ds[j]).id != id
            &&& match first_size_route(rules, ds[at].url@, total, 0) {
                Some(k) => match destined_queue(rules[k]@, ds[at].url@) {
                    Some(n) => target_id(qs, next, n) != ds[at].queue,
                    None => false,
                },
                None => false,
            }
        }
}

/// Row `at` is the first with id `id`.
pub open spec fn first_with(ds: Seq<Download>, id: usize, at: int) -> bool {
    &&& 0 <= at < ds.len()
    &&& ds[at].id == id
    &&& forall|j: int| 0 <= j < at ==> (#[trigger] ds[j]).id != id
}

/// What a tool's exit code means, for the tools that document theirs.
pub open spec fn exit_reason(tool: Tool, code: int) -> Seq<char> {
    match tool {
        Tool::Aria2 => crate::backend::aria2_reason(code),
        Tool::YtDlp => crate::ytdlp::exit_text(code),
        Tool::Wget => crate::backend::wget_reason(code),
    }
}

/// How a download ends when its process exits with `code`: done on 0 or a
/// code the tool tolerates, failed with the code's meaning otherwise, and
/// failed when a signal killed it.
pub open spec fn exit_status(tool: Tool, code: Option<i32>) -> StatusView {
    match code {
        Some(c) => if c == 0 || (tool == Tool::Wget && c == 8) {
            StatusView::Done
        } else {
            StatusView::Failed(exit_reason(tool, c as int))
        },
        None => StatusView::Failed("killed by a signal"@),
    }
}

/// A status a download has reached its end in: done, failed or cancelled.
pub open spec fn ended_status(s: Status) -> bool {
    s is Done || s is Failed || s is Cancelled
}

/// A row as a re-sync of queue `q` leaves it: one of that queue that has
/// ended waits again, with its retries spent afresh.
pub open spec fn resynced(d: Download, q: usize) -> Download {
    if d.queue == q && ended_status(d.status) {
        Download { status: Status::Queued, tries: 0, ..d }
    } else {
        d
    }
}

/// How many rows a re-sync of queue `q` puts back.
pub open spec fn resync_count(ds: Seq<Download>, q: usize) -> nat
    decreases ds.len(),
{
    if ds.len() == 0 {
        0
    } else {
        resync_count(ds.drop_last(), q) + if ds.last().queue == q && ended_status(ds.last().status) {
            1nat
        } else {
            0nat
        }
    }
}

/// A queue that acts once it drains: a one-time run, a shutdown or a
/// command to run after.
pub open spec fn drain_acts(q: QueueView) -> bool {
    q.once || q.shutdown || q.after.len() > 0
}

/// Some row of queue `q` is still to run: running, waiting or paused.
pub open spec fn busy_in(ds: Seq<Download>, q: usize) -> bool {
    exists|k: int|
        0 <= k < ds.len() && (#[trigger] ds[k]).queue == q && (ds[k].status is Running || ds[k].status is Queued
            || ds[k].status is Paused)
}

/// Queue `q` has had rows at all.
pub open spec fn worked_in(ds: Seq<Download>, q: usize) -> bool {
    exists|k: int| 0 <= k < ds.len() && (#[trigger] ds[k]).queue == q
}

/// Queue `q` had work and none of it is left to run.
pub open spec fn drained_now(ds: Seq<Download>, q: usize) -> bool {
    worked_in(ds, q) && !busy_in(ds, q)
}

/// Indices of the rows of queue `q` that are running (or, with `running`
/// false, paused).
pub open spec fn rows_in(ds: Seq<Download>, q: usize, running: bool) -> Seq<usize>
    decreases ds.len(),
{
    if ds.len() == 0 {
        seq![]
    } else {
        let before = rows_in(ds.drop_last(), q, running);
        let d = ds.last();
        if d.queue == q && (if running {
            d.status is Running
        } else {
            d.status is Paused
        }) {
            before.push((ds.len() - 1) as usize)
        } else {
            before
        }
    }
}

/// What a rule's pattern caught in a url, for its destinations.
fn caught_in(rule: &Rule, url: &str) -> (r: Vec<String>)
    ensures
        strings(r@) == caught_of(rule@, url@),
{
    match rule.captures(url) {
        Some(c) => c,
        None => {
            let v: Vec<String> = Vec::new();
            proof {
                assert(strings(v@) =~= Seq::<Seq<char>>::empty());
            }
            v
        },
    }
}

/// The queue a rule sends a url to, captures filled in.
fn destination_queue(rule: &Rule, url: &str, caught: &[String]) -> (r: Option<String>)
    requires
        strings(caught@) == caught_of(rule@, url@),
    ensures
        match r {
            Some(n) => destined_queue(rule@, url@) == Some(n@),
            None => destined_queue(rule@, url@) is None,
        },
{
    match &rule.queue {
        Some(q) => rule.fill(q.as_str(), caught),
        None => None,
    }
}

pub fn expand_home(path: &str, home: &str) -> (r: String)
    ensures
        r@ == home_expanded(path@, home@),
{
    let p = text::chars_of(path);
    if p.len() > 0 && p[0] == '~' {
        let mut v = text::chars_of(home);
        text::push_all(&mut v, text::slice_of(p.as_slice(), 1, p.len()).as_slice());
        proof {
            assert(p@.subrange(1, p@.len() as int) =~= p@.skip(1));
        }
        text::string_of(v.as_slice())
    } else {
        text::string_of(p.as_slice())
    }
}

fn find_route(rules: &[Rule], url: &str) -> (r: Option<usize>)
    ensures
        match r {
            Some(i) => first_route(rules@, url@, 0) == Some(i as int) && i < rules@.len(),
            None => first_route(rules@, url@, 0) is None,
        },
{
    let mut i: usize = 0;
    while i < rules.len()
        invariant
            i <= rules@.len(),
            first_route(rules@, url@, 0) == first_route(rules@, url@, i as int),
        decreases rules@.len() - i,
    {
        if rules[i].min_size.is_none() && rules[i].matches(url) {
            return Some(i);
        }
        i += 1;
    }
    None
}

fn find_size_route(rules: &[Rule], url: &str, total: u64) -> (r: Option<usize>)
    ensures
        match r {
            Some(i) => first_size_route(rules@, url@, total, 0) == Some(i as int) && i < rules@.len(),
            None => first_size_route(rules@, url@, total, 0) is None,
        },
{
    let mut i: usize = 0;
    while i < rules.len()
        invariant
            i <= rules@.len(),
            first_size_route(rules@, url@, total, 0) == first_size_route(rules@, url@, total, i as int),
        decreases rules@.len() - i,
    {
        if rules[i].min_size.is_some() && rules[i].matches(url) && rules[i].wants_size(total) {
            return Some(i);
        }
        i += 1;
    }
    None
}

impl Board {
    /// The id of the queue with this name, making it if it does not exist
    /// yet: a category should not need setting up by hand.
    pub fn queue_named(&mut self, name: &str) -> (id: usize)
        requires
            old(self).wf(),
            old(self).next_queue_id < usize::MAX,
        ensures
            final(self).wf(),
            called_or_made(old(self).queues@, old(self).next_queue_id, name@, final(self).queues@,
                final(self).next_queue_id, id),
            final(self).downloads@ == old(self).downloads@,
            final(self).selected == old(self).selected,
            final(self).filter == old(self).filter,
            final(self).current == old(self).current,
            final(self).next_id == old(self).next_id,
    {
        let want = text::chars_of(name);
        let mut i: usize = 0;
        while i < self.queues.len()
            invariant
                i <= self.queues@.len(),
                want@ == name@,
                self.wf(),
                queue_called(self.queues@, name@, 0) == queue_called(self.queues@, name@, i as int),
            decreases self.queues@.len() - i,
        {
            if text::same(text::chars_of(self.queues[i].name.as_str()).as_slice(), want.as_slice()) {
                return self.queues[i].id;
            }
            i += 1;
        }
        let id = self.next_queue_id;
        self.queues.push(Queue::new(id, name, 3));
        self.next_queue_id = id + 1;
        proof {
            let qs = self.queues@;
            let olds = old(self).queues@;
            assert(qs.drop_last() =~= olds);
            let d = choose|k: int| 0 <= k < olds.len() && (#[trigger] olds[k]).id == DEFAULT;
            assert(qs[d] == olds[d]);
            assert forall|a: int, b: int| 0 <= a < qs.len() && 0 <= b < qs.len() && a != b implies (#[trigger] qs[a]).id != (#[trigger] qs[b]).id by {
                if a < olds.len() {
                    assert(qs[a] == olds[a]);
                }
                if b < olds.len() {
                    assert(qs[b] == olds[b]);
                }
            }
            assert forall|k: int| 0 <= k < qs.len() implies (#[trigger] qs[k]).id < self.next_queue_id by {
                if k < olds.len() {
                    assert(qs[k] == olds[k]);
                }
            }
        }
        id
    }

    /// Apply the first rule the url matches: its queue (made if it does not
    /// exist yet), its directory, its backend. What the rule leaves out, and
    /// what was typed into the add form, stays. Returns the queue's id.
    pub fn route(&mut self, url: &str, queue: usize, over: &mut Overrides, rules: &[Rule], home: &str) -> (to: usize)
        requires
            old(self).wf(),
            old(self).next_queue_id < usize::MAX,
        ensures
            final(self).wf(),
            over_view(*final(over)) == route_over(rules@, url@, over_view(*old(over)), home@),
            match route_queue(rules@, url@) {
                Some(n) => called_or_made(old(self).queues@, old(self).next_queue_id, n, final(self).queues@,
                    final(self).next_queue_id, to),
                None => to == queue && final(self).queues@ == old(self).queues@
                    && final(self).next_queue_id == old(self).next_queue_id,
            },
            final(self).downloads@ == old(self).downloads@,
            final(self).selected == old(self).selected,
            final(self).filter == old(self).filter,
            final(self).current == old(self).current,
            final(self).next_id == old(self).next_id,
    {
        let i = match find_route(rules, url) {
            Some(i) => i,
            None => {
                return queue;
            },
        };
        let rule = &rules[i];
        let caught = caught_in(rule, url);
        if over.dir.as_str().is_empty() {
            match &rule.directory {
                Some(d) => match rule.fill(d.as_str(), caught.as_slice()) {
                    Some(f) => {
                        over.dir = expand_home(f.as_str(), home);
                    },
                    None => {},
                },
                None => {},
            }
        }
        match &rule.backend {
            Some(b) => {
                over.backend = text::string_of(text::chars_of(b.as_str()).as_slice());
            },
            None => {},
        }
        proof {
            assert(over_view(*over) == routed_over(over_view(*old(over)), rules@[i as int]@, url@, home@));
        }
        match destination_queue(rule, url, caught.as_slice()) {
            Some(name) => self.queue_named(name.as_str()),
            None => queue,
        }
    }

    /// Add one url to a queue, routed by the rules. It waits there until the
    /// queue has a slot. `None` when no backend takes the url; a queue a
    /// rule named is made all the same.
    pub fn enqueue(&mut self, url: &str, queue: usize, over: Overrides, rules: &[Rule], home: &str) -> (r: Option<usize>)
        requires
            old(self).wf(),
            old(self).next_queue_id < usize::MAX,
            old(self).next_id < usize::MAX,
        ensures
            final(self).wf(),
            match r {
                Some(at) => {
                    let d = final(self).downloads@.last();
                    let o = route_over(rules@, url@, over_view(over), home@);
                    &&& at == old(self).downloads@.len()
                    &&& final(self).downloads@.drop_last() == old(self).downloads@
                    &&& tool_for(url@, o.backend) matches Some(t) && row_view(d) == (RowView {
                        id: old(self).next_id,
                        queue: d.queue,
                        url: url@,
                        backend: tool_name(t),
                        status: StatusView::Queued,
                        percent: "0"@,
                        speed: seq![],
                        over: o,
                        path: None,
                        pid: None,
                        tries: 0,
                    })
                    &&& final(self).next_id == old(self).next_id + 1
                    &&& match route_queue(rules@, url@) {
                        Some(n) => called_or_made(old(self).queues@, old(self).next_queue_id, n, final(self).queues@,
                            final(self).next_queue_id, d.queue),
                        None => d.queue == queue && final(self).queues@ == old(self).queues@
                            && final(self).next_queue_id == old(self).next_queue_id,
                    }
                },
                None => {
                    &&& tool_for(url@, route_over(rules@, url@, over_view(over), home@).backend) is None
                    &&& final(self).downloads@ == old(self).downloads@
                    &&& final(self).next_id == old(self).next_id
                    &&& match route_queue(rules@, url@) {
                        Some(n) => exists|q: usize| called_or_made(old(self).queues@, old(self).next_queue_id, n,
                            final(self).queues@, final(self).next_queue_id, q),
                        None => final(self).queues@ == old(self).queues@
                            && final(self).next_queue_id == old(self).next_queue_id,
                    }
                },
            },
            final(self).selected == old(self).selected,
            final(self).filter == old(self).filter,
            final(self).current == old(self).current,
    {
        let mut over = over;
        let q = self.route(url, queue, &mut over, rules, home);
        let t = match backend_for(url, &over) {
            Some(t) => t,
            None => {
                return None;
            },
        };
        let d = Download {
            id: self.next_id,
            queue: q,
            url: text::string_of(text::chars_of(url).as_slice()),
            backend: t.name(),
            status: Status::Queued,
            percent: String::from_str("0"),
            speed: String::new(),
            over,
            path: None,
            pid: None,
            tries: 0,
        };
        proof {
            reveal_strlit("0");
        }
        let ghost pre = self.downloads@;
        self.downloads.push(d);
        self.next_id = self.next_id + 1;
        proof {
            assert(self.downloads@.drop_last() =~= pre);
            assert forall|k: int| 0 <= k < self.downloads@.len() implies (#[trigger] self.downloads@[k]).id < self.next_id by {
                if k < pre.len() {
                    assert(self.downloads@[k] == pre[k]);
                    assert(pre[k].id < self.next_id - 1);
                }
            }
        }
        Some(self.downloads.len() - 1)
    }

    /// Move a download to the queue of the first size rule it now
    /// satisfies, once its total is known. True when it moved.
    pub fn route_by_size(&mut self, id: usize, total: u64, rules: &[Rule]) -> (moved: bool)
        requires
            old(self).wf(),
            old(self).next_queue_id < usize::MAX,
        ensures
            final(self).wf(),
            moved == size_moves(old(self).downloads@, old(self).queues@, old(self).next_queue_id, id, total, rules@),
            moved ==> exists|at: int, k: int| {
                &&& 0 <= at < old(self).downloads@.len()
                &&& old(self).downloads@[at].id == id
                &&& first_size_route(rules@, old(self).downloads@[at].url@, total, 0) == Some(k)
                &&& destined_queue(rules@[k]@, old(self).downloads@[at].url@) matches Some(n) && called_or_made(old(self).queues@, old(self).next_queue_id, n,
                    final(self).queues@, final(self).next_queue_id, final(self).downloads@[at].queue)
                &&& final(self).downloads@[at].queue != old(self).downloads@[at].queue
                &&& final(self).downloads@ == old(self).downloads@.update(at, Download {
                    queue: final(self).downloads@[at].queue,
                    ..old(self).downloads@[at]
                })
            },
            !moved ==> final(self).downloads@ == old(self).downloads@,
            (forall|at: int| 0 <= at < old(self).downloads@.len() ==> (#[trigger] old(self).downloads@[at]).id != id)
                ==> !moved && final(self).queues@ == old(self).queues@,
            final(self).selected == old(self).selected,
            final(self).filter == old(self).filter,
            final(self).current == old(self).current,
            final(self).next_id == old(self).next_id,
    {
        let ghost ds = self.downloads@;
        let ghost qs = self.queues@;
        let ghost next = self.next_queue_id;
        let at = match self.find(id) {
            Some(at) => at,
            None => {
                return false;
            },
        };
        proof {
            lemma_first_row(ds, id, at as int);
        }
        let i = match find_size_route(rules, self.downloads[at].url.as_str(), total) {
            Some(i) => i,
            None => {
                return false;
            },
        };
        let caught = caught_in(&rules[i], self.downloads[at].url.as_str());
        let name = match destination_queue(&rules[i], self.downloads[at].url.as_str(), caught.as_slice()) {
            Some(n) => n,
            None => {
                return false;
            },
        };
        let to = self.queue_named(name.as_str());
        proof {
            assert(to == target_id(qs, next, name@));
        }
        if self.downloads[at].queue == to {
            return false;
        }
        proof {
            assert(ds[at as int].id == id);
        }
        self.downloads[at].queue = to;
        proof {
            assert forall|k: int| 0 <= k < self.downloads@.len() implies (#[trigger] self.downloads@[k]).id < self.next_id by {
                assert(self.downloads@[k].id == old(self).downloads@[k].id);
            }
        }
        true
    }

    /// A periodic re-sync of the queue at `at`: everything in it that has
    /// ended waits again, to be fetched anew. Returns how many rows that is.
    /// When it is due is the caller's clock.
    pub fn sync_queue(&mut self, at: usize) -> (requeued: usize)
        requires
            old(self).wf(),
            at < old(self).queues@.len(),
        ensures
            final(self).wf(),
            final(self).downloads@ == old(self).downloads@.map_values(
                |d: Download| resynced(d, old(self).queues@[at as int].id),
            ),
            requeued == resync_count(old(self).downloads@, old(self).queues@[at as int].id),
            final(self).queues@ == old(self).queues@,
            final(self).selected == old(self).selected,
            final(self).filter == old(self).filter,
            final(self).current == old(self).current,
            final(self).next_id == old(self).next_id,
            final(self).next_queue_id == old(self).next_queue_id,
    {
        let id = self.queues[at].id;
        let ghost ds = self.downloads@;
        let mut n: usize = 0;
        let mut i: usize = 0;
        while i < self.downloads.len()
            invariant
                i <= self.downloads@.len(),
                self.downloads@.len() == ds.len(),
                forall|k: int| 0 <= k < i ==> self.downloads@[k] == resynced(#[trigger] ds[k], id),
                forall|k: int| i <= k < ds.len() ==> self.downloads@[k] == #[trigger] ds[k],
                n == resync_count(ds.take(i as int), id),
                n <= i,
                self.queues@ == old(self).queues@,
                self.selected == old(self).selected,
                self.filter == old(self).filter,
                self.current == old(self).current,
                self.next_id == old(self).next_id,
                self.next_queue_id == old(self).next_queue_id,
                ds == old(self).downloads@,
                id == old(self).queues@[at as int].id,
            decreases ds.len() - i,
        {
            proof {
                assert(ds.take(i + 1).drop_last() =~= ds.take(i as int));
                assert(ds.take(i + 1).last() == ds[i as int]);
            }
            let ended = match self.downloads[i].status {
                Status::Done | Status::Failed(_) | Status::Cancelled => true,
                _ => false,
            };
            if self.downloads[i].queue == id && ended {
                self.downloads[i].status = Status::Queued;
                self.downloads[i].tries = 0;
                n += 1;
            }
            i += 1;
        }
        proof {
            assert(ds.take(ds.len() as int) =~= ds);
            assert(self.downloads@ =~= ds.map_values(|d: Download| resynced(d, id)));
            assert forall|k: int| 0 <= k < self.downloads@.len() implies (#[trigger] self.downloads@[k]).id
                < self.next_id by {
                assert(self.downloads@[k].id == ds[k].id);
            }
        }
        n
    }

    /// What the queue at `at` does once nothing in it is left to run. A
    /// queue with a drain action remembers whether it has drained, and
    /// fires the first time it has: true then. A one-time run is then over:
    /// its schedule is dropped and it is paused. The command to run after
    /// and the shutdown are the caller's.
    pub fn drained(&mut self, at: usize) -> (fire: bool)
        requires
            old(self).wf(),
            at < old(self).queues@.len(),
        ensures
            final(self).wf(),
            ({
                let q = old(self).queues@[at as int]@;
                let now = drained_now(old(self).downloads@, q.id);
                &&& fire == (drain_acts(q) && now && !q.fired)
                &&& final(self).queues@.len() == old(self).queues@.len()
                &&& forall|k: int|
                    0 <= k < old(self).queues@.len() && k != at ==> #[trigger] final(self).queues@[k]
                        == old(self).queues@[k]
                &&& final(self).queues@[at as int]@ == if !drain_acts(q) {
                    q
                } else if fire && q.once {
                    QueueView { paused: true, ..respecified(q, ""@).0 }
                } else {
                    QueueView { fired: now, ..q }
                }
            }),
            final(self).downloads@ == old(self).downloads@,
            final(self).selected == old(self).selected,
            final(self).filter == old(self).filter,
            final(self).current == old(self).current,
            final(self).next_id == old(self).next_id,
            final(self).next_queue_id == old(self).next_queue_id,
    {
        let ghost q0 = self.queues@[at as int]@;
        let acts = self.queues[at].once || self.queues[at].shutdown || text::chars_of(self.queues[at].after.as_str()).len() > 0;
        if !acts {
            return false;
        }
        let id = self.queues[at].id;
        let mut busy = false;
        let mut worked = false;
        let mut i: usize = 0;
        while i < self.downloads.len()
            invariant
                i <= self.downloads@.len(),
                worked == exists|k: int| 0 <= k < i && (#[trigger] self.downloads@[k]).queue == id,
                busy == exists|k: int|
                    0 <= k < i && (#[trigger] self.downloads@[k]).queue == id && (self.downloads@[k].status is Running
                        || self.downloads@[k].status is Queued || self.downloads@[k].status is Paused),
            decreases self.downloads@.len() - i,
        {
            if self.downloads[i].queue == id {
                worked = true;
                match self.downloads[i].status {
                    Status::Running | Status::Queued | Status::Paused => {
                        busy = true;
                    },
                    _ => {},
                }
            }
            i += 1;
        }
        proof {
            assert(worked == worked_in(self.downloads@, id));
            assert(busy == busy_in(self.downloads@, id));
        }
        if busy || !worked {
            self.queues[at].fired = false;
            proof {
                assert(self.queues@[at as int]@ =~= QueueView { fired: false, ..q0 });
                self.lemma_queues_kept(old(self).queues@, at as int);
            }
            return false;
        }
        if self.queues[at].fired {
            proof {
                assert(self.queues@[at as int]@ =~= QueueView { fired: true, ..q0 });
            }
            return false;
        }
        self.queues[at].fired = true;
        if self.queues[at].once {
            let mut q = self.queues.remove(at);
            let _ = q.set_spec("");
            q.paused = true;
            self.queues.insert(at, q);
            proof {
                crate::queue::lemma_applied_keeps_id(q0, ""@);
                assert(self.queues@[at as int]@ =~= QueueView { paused: true, ..respecified(q0, ""@).0 });
                self.lemma_queues_kept(old(self).queues@, at as int);
            }
        } else {
            proof {
                assert(self.queues@[at as int]@ =~= QueueView { fired: true, ..q0 });
                self.lemma_queues_kept(old(self).queues@, at as int);
            }
        }
        true
    }

    /// A queue replaced in place by one with the same id keeps the board's
    /// queues sound.
    proof fn lemma_queues_kept(&self, before: Seq<Queue>, at: int)
        requires
            queues_ok(before, self.next_queue_id),
            0 <= at < before.len(),
            self.queues@.len() == before.len(),
            self.queues@[at].id == before[at].id,
            forall|k: int| 0 <= k < before.len() && k != at ==> self.queues@[k] == before[k],
        ensures
            queues_ok(self.queues@, self.next_queue_id),
    {
        let qs = self.queues@;
        assert forall|k: int| 0 <= k < qs.len() implies (#[trigger] qs[k]).id == before[k].id by {}
        let d = choose|k: int| 0 <= k < before.len() && (#[trigger] before[k]).id == DEFAULT;
        assert(qs[d].id == DEFAULT);
    }

    /// The process of download `id` exited with `code` (none: a signal).
    /// Its process is gone either way; a running row ends as the code says,
    /// at 100 percent when done, and the status is returned. A row that was
    /// paused or cancelled meanwhile keeps what the user made it.
    pub fn finish(&mut self, id: usize, tool: Tool, code: Option<i32>) -> (r: Option<Status>)
        requires
            old(self).wf(),
        ensures
            final(self).wf(),
            match r {
                Some(st) => exists|at: int| {
                    &&& first_with(old(self).downloads@, id, at)
                    &&& old(self).downloads@[at].status is Running
                    &&& status_view(st) == exit_status(tool, code)
                    &&& final(self).downloads@.len() == old(self).downloads@.len()
                    &&& forall|k: int| 0 <= k < old(self).downloads@.len() && k != at
                        ==> #[trigger] final(self).downloads@[k] == old(self).downloads@[k]
                    &&& status_view(final(self).downloads@[at].status) == exit_status(tool, code)
                    &&& final(self).downloads@[at].percent@ == if st is Done {
                        "100"@
                    } else {
                        old(self).downloads@[at].percent@
                    }
                    &&& final(self).downloads@[at] == (Download {
                        status: final(self).downloads@[at].status,
                        percent: final(self).downloads@[at].percent,
                        pid: None,
                        ..old(self).downloads@[at]
                    })
                },
                None => {
                    ||| (forall|k: int| 0 <= k < old(self).downloads@.len()
                        ==> (#[trigger] old(self).downloads@[k]).id != id) && final(self).downloads@
                        == old(self).downloads@
                    ||| exists|at: int| {
                        &&& first_with(old(self).downloads@, id, at)
                        &&& !(old(self).downloads@[at].status is Running)
                        &&& final(self).downloads@ == old(self).downloads@.update(
                            at,
                            Download { pid: None, ..old(self).downloads@[at] },
                        )
                    }
                },
            },
            final(self).queues@ == old(self).queues@,
            final(self).selected == old(self).selected,
            final(self).filter == old(self).filter,
            final(self).current == old(self).current,
            final(self).next_id == old(self).next_id,
            final(self).next_queue_id == old(self).next_queue_id,
    {
        let at = match self.find(id) {
            Some(at) => at,
            None => {
                return None;
            },
        };
        self.downloads[at].pid = None;
        let running = match self.downloads[at].status {
            Status::Running => true,
            _ => false,
        };
        if !running {
            proof {
                assert(self.downloads@ =~= old(self).downloads@.update(
                    at as int,
                    Download { pid: None, ..old(self).downloads@[at as int] },
                ));
                assert(first_with(old(self).downloads@, id, at as int));
                assert forall|k: int| 0 <= k < self.downloads@.len() implies (#[trigger] self.downloads@[k]).id
                    < self.next_id by {
                    assert(self.downloads@[k].id == old(self).downloads@[k].id);
                }
            }
            return None;
        }
        let st = match code {
            Some(c) => if c == 0 || tool.tolerates(c) {
                Status::Done
            } else {
                Status::Failed(tool.reason(c))
            },
            None => Status::Failed(text::string_of(text::chars_of("killed by a signal").as_slice())),
        };
        let done = match st {
            Status::Done => true,
            _ => false,
        };
        let back = st.copy();
        self.downloads[at].status = st;
        if done {
            self.downloads[at].percent = text::string_of(text::chars_of("100").as_slice());
        }
        proof {
            assert(first_with(old(self).downloads@, id, at as int));
            assert forall|k: int| 0 <= k < self.downloads@.len() implies (#[trigger] self.downloads@[k]).id
                < self.next_id by {
                assert(self.downloads@[k].id == old(self).downloads@[k].id);
            }
        }
        Some(back)
    }

    /// Whether any queue is paused: pausing everything resumes instead when
    /// one is, so a half-paused list reaches a known state in one key.
    pub fn any_paused(&self) -> (r: bool)
        ensures
            r == exists|i: int| 0 <= i < self.queues@.len() && (#[trigger] self.queues@[i]).paused,
    {
        let mut i: usize = 0;
        while i < self.queues.len()
            invariant
                i <= self.queues@.len(),
                forall|k: int| 0 <= k < i ==> !(#[trigger] self.queues@[k]).paused,
            decreases self.queues@.len() - i,
        {
            if self.queues[i].paused {
                return true;
            }
            i += 1;
        }
        false
    }

    /// Pause a queue or resume it. A paused queue starts nothing; the rows
    /// to freeze (when pausing) or to thaw (when resuming) come back, each to
    /// be toggled like a row the pause key was pressed on.
    pub fn set_queue_paused(&mut self, at: usize, paused: bool) -> (rows: Vec<usize>)
        requires
            old(self).wf(),
        ensures
            final(self).wf(),
            at < old(self).queues@.len() ==> {
                &&& final(self).queues@ == old(self).queues@.update(at as int, Queue {
                    paused,
                    ..old(self).queues@[at as int]
                })
                &&& rows@ == rows_in(old(self).downloads@, old(self).queues@[at as int].id, paused)
            },
            at >= old(self).queues@.len() ==> final(self).queues@ == old(self).queues@ && rows@.len() == 0,
            final(self).downloads@ == old(self).downloads@,
            final(self).selected == old(self).selected,
            final(self).filter == old(self).filter,
            final(self).current == old(self).current,
            final(self).next_id == old(self).next_id,
            final(self).next_queue_id == old(self).next_queue_id,
    {
        let mut rows: Vec<usize> = Vec::new();
        if at >= self.queues.len() {
            return rows;
        }
        self.queues[at].paused = paused;
        proof {
            let qs = self.queues@;
            assert forall|k: int| 0 <= k < qs.len() implies (#[trigger] qs[k]).id == old(self).queues@[k].id by {}
            let d = choose|k: int| 0 <= k < old(self).queues@.len() && (#[trigger] old(self).queues@[k]).id == DEFAULT;
            assert(qs[d].id == DEFAULT);
        }
        let id = self.queues[at].id;
        let mut i: usize = 0;
        while i < self.downloads.len()
            invariant
                i <= self.downloads@.len(),
                rows@ == rows_in(self.downloads@.take(i as int), id, paused),
            decreases self.downloads@.len() - i,
        {
            proof {
                assert(self.downloads@.take(i + 1).drop_last() =~= self.downloads@.take(i as int));
                assert(self.downloads@.take(i + 1).last() == self.downloads@[i as int]);
            }
            let hit = self.downloads[i].queue == id && match self.downloads[i].status {
                Status::Running => paused,
                Status::Paused => !paused,
                _ => false,
            };
            if hit {
                rows.push(i);
            }
            i += 1;
        }
        proof {
            assert(self.downloads@.take(self.downloads@.len() as int) =~= self.downloads@);
        }
        rows
    }
}


// ---------------------------------------------------------------------------
// Clearing, jumping, charging
// ---------------------------------------------------------------------------

/// A row a clear of queue `q` takes: every row of it, or with `all` unset
/// only the finished ones (done, failed or cancelled).
pub open spec fn cleared(d: Download, q: usize, all: bool) -> bool {
    d.queue == q && (all || d.status is Done || d.status is Failed || d.status is Cancelled)
}

/// The rows a clear leaves, in order.
pub open spec fn kept_after_clear(ds: Seq<Download>, q: usize, all: bool) -> Seq<Download>
    decreases ds.len(),
{
    if ds.len() == 0 {
        seq![]
    } else if cleared(ds.last(), q, all) {
        kept_after_clear(ds.drop_last(), q, all)
    } else {
        kept_after_clear(ds.drop_last(), q, all).push(ds.last())
    }
}

/// The rows a clear takes, in order.
pub open spec fn taken_by_clear(ds: Seq<Download>, q: usize, all: bool) -> Seq<Download>
    decreases ds.len(),
{
    if ds.len() == 0 {
        seq![]
    } else if cleared(ds.last(), q, all) {
        taken_by_clear(ds.drop_last(), q, all).push(ds.last())
    } else {
        taken_by_clear(ds.drop_last(), q, all)
    }
}

proof fn lemma_kept_ids(ds: Seq<Download>, q: usize, all: bool, next: usize)
    requires
        ids_below(ds, next),
    ensures
        ids_below(kept_after_clear(ds, q, all), next),
        forall|k: int| 0 <= k < kept_after_clear(ds, q, all).len() ==> !cleared(#[trigger] kept_after_clear(ds, q, all)[k], q, all),
    decreases ds.len(),
{
    if ds.len() > 0 {
        assert(ids_below(ds.drop_last(), next)) by {
            assert forall|k: int| 0 <= k < ds.drop_last().len() implies (#[trigger] ds.drop_last()[k]).id < next by {
                assert(ds.drop_last()[k] == ds[k]);
            }
        }
        lemma_kept_ids(ds.drop_last(), q, all, next);
        assert(ds.last() == ds[ds.len() - 1]);
    }
}

/// The sum of the reported speeds of queue `q`'s running rows, in bytes a
/// second; a speed that does not read counts as nothing.
pub open spec fn speed_in(ds: Seq<Download>, q: usize) -> nat
    decreases ds.len(),
{
    if ds.len() == 0 {
        0
    } else {
        let d = ds.last();
        speed_in(ds.drop_last(), q) + if d.queue == q && d.status is Running {
            match crate::parse::size_of(d.speed@) {
                Some(n) => n as nat,
                None => 0nat,
            }
        } else {
            0nat
        }
    }
}

impl Board {
    /// Clear the viewed queue: its finished rows, or with `all` every row.
    /// The rows taken come back, for their processes to be stopped.
    pub fn clear(&mut self, all: bool) -> (gone: Vec<Download>)
        requires
            old(self).wf(),
        ensures
            final(self).wf(),
            final(self).downloads@ == kept_after_clear(old(self).downloads@, old(self).current_id(), all),
            gone@ == taken_by_clear(old(self).downloads@, old(self).current_id(), all),
            final(self).selected == clamped_into(final(self).shown(), old(self).selected),
            final(self).queues@ == old(self).queues@,
            final(self).filter == old(self).filter,
            final(self).current == old(self).current,
            final(self).next_id == old(self).next_id,
            final(self).next_queue_id == old(self).next_queue_id,
    {
        let q = self.queues[self.current].id;
        let mut rest: Vec<Download> = Vec::new();
        let mut gone: Vec<Download> = Vec::new();
        let mut all_rows: Vec<Download> = Vec::new();
        std::mem::swap(&mut all_rows, &mut self.downloads);
        let ghost ds = all_rows@;
        let n = all_rows.len();
        let mut i: usize = 0;
        while i < n
            invariant
                n == ds.len(),
                i <= n,
                all_rows@ == ds.skip(i as int),
                rest@ == kept_after_clear(ds.take(i as int), q, all),
                gone@ == taken_by_clear(ds.take(i as int), q, all),
            decreases n - i,
        {
            let d = all_rows.remove(0);
            proof {
                assert(d == ds[i as int]);
                assert(all_rows@ =~= ds.skip(i + 1));
                assert(ds.take(i + 1).drop_last() =~= ds.take(i as int));
                assert(ds.take(i + 1).last() == ds[i as int]);
            }
            let finished = match d.status {
                Status::Done | Status::Failed(_) | Status::Cancelled => true,
                _ => false,
            };
            if d.queue == q && (all || finished) {
                gone.push(d);
            } else {
                rest.push(d);
            }
            i += 1;
        }
        proof {
            assert(ds.take(n as int) =~= ds);
            lemma_kept_ids(ds, q, all, self.next_id);
        }
        self.downloads = rest;
        self.clamp_selection();
        gone
    }

    /// Select row `n` of the shown ones, or the last when there are fewer.
    pub fn goto_row(&mut self, n: usize)
        requires
            old(self).wf(),
        ensures
            final(self).wf(),
            final(self).selected == (if old(self).shown().len() == 0 {
                old(self).selected
            } else if n < old(self).shown().len() {
                old(self).shown()[n as int]
            } else {
                old(self).shown().last()
            }),
            final(self).downloads@ == old(self).downloads@,
            final(self).queues@ == old(self).queues@,
            final(self).filter == old(self).filter,
            final(self).current == old(self).current,
            final(self).next_id == old(self).next_id,
            final(self).next_queue_id == old(self).next_queue_id,
    {
        let vis = self.visible();
        if vis.len() == 0 {
            return;
        }
        self.selected = if n < vis.len() { vis[n] } else { vis[vis.len() - 1] };
    }

    /// Charge each queue with a quota for what its running rows moved in
    /// `secs` seconds at their reported speeds; the count stops at the top
    /// of a `u64`.
    pub fn charge_quotas(&mut self, secs: u64)
        requires
            old(self).wf(),
        ensures
            final(self).wf(),
            final(self).queues@.len() == old(self).queues@.len(),
            forall|i: int| 0 <= i < old(self).queues@.len() ==> {
                let q = old(self).queues@[i];
                (#[trigger] final(self).queues@[i]) == Queue {
                    used: if q.quota is Some {
                        if q.used + speed_in(old(self).downloads@, q.id) * secs > u64::MAX {
                            u64::MAX
                        } else {
                            (q.used + speed_in(old(self).downloads@, q.id) * secs) as u64
                        }
                    } else {
                        q.used
                    },
                    ..q
                }
            },
            final(self).downloads@ == old(self).downloads@,
            final(self).selected == old(self).selected,
            final(self).filter == old(self).filter,
            final(self).current == old(self).current,
            final(self).next_id == old(self).next_id,
            final(self).next_queue_id == old(self).next_queue_id,
    {
        let mut i: usize = 0;
        while i < self.queues.len()
            invariant
                i <= self.queues@.len(),
                self.queues@.len() == old(self).queues@.len(),
                self.downloads@ == old(self).downloads@,
                self.selected == old(self).selected,
                self.filter == old(self).filter,
                self.current == old(self).current,
                self.next_id == old(self).next_id,
                self.next_queue_id == old(self).next_queue_id,
                forall|k: int| 0 <= k < self.queues@.len() ==> (#[trigger] self.queues@[k]).id == old(self).queues@[k].id,
                forall|k: int| i <= k < self.queues@.len() ==> (#[trigger] self.queues@[k]) == old(self).queues@[k],
                forall|k: int| 0 <= k < i ==> {
                    let q = old(self).queues@[k];
                    (#[trigger] self.queues@[k]) == Queue {
                        used: if q.quota is Some {
                            if q.used + speed_in(old(self).downloads@, q.id) * secs > u64::MAX {
                                u64::MAX
                            } else {
                                (q.used + speed_in(old(self).downloads@, q.id) * secs) as u64
                            }
                        } else {
                            q.used
                        },
                        ..q
                    }
                },
            decreases self.queues@.len() - i,
        {
            if self.queues[i].quota.is_some() {
                let rate = self.speed_of(self.queues[i].id);
                let used = self.queues[i].used;
                proof {
                    assert(rate as int * secs as int <= 0xffff_ffff_ffff_ffff * 0xffff_ffff_ffff_ffff) by (nonlinear_arith)
                        requires rate <= 0xffff_ffff_ffff_ffffu64, secs <= 0xffff_ffff_ffff_ffffu64;
                }
                let moved: u128 = rate as u128 * secs as u128;
                let total: u128 = used as u128 + moved;
                proof {
                    let sp = speed_in(old(self).downloads@, self.queues@[i as int].id);
                    if sp > u64::MAX && secs > 0 {
                        assert(sp * secs >= sp) by (nonlinear_arith) requires secs >= 1, sp >= 0;
                        assert(rate as int * secs as int >= rate as int) by (nonlinear_arith) requires secs >= 1, rate >= 0;
                    }
                    if secs == 0 {
                        assert(sp * secs == 0) by (nonlinear_arith) requires secs == 0;
                        assert(rate as int * secs as int == 0) by (nonlinear_arith) requires secs == 0;
                    }
                }
                self.queues[i].used = if total > u64::MAX as u128 { u64::MAX } else { total as u64 };
            }
            i += 1;
        }
        proof {
            let qs = self.queues@;
            let olds = old(self).queues@;
            let d = choose|k: int| 0 <= k < olds.len() && (#[trigger] olds[k]).id == DEFAULT;
            assert(qs[d].id == DEFAULT);
        }
    }

    /// The summed speed of a queue's running rows, held at the top of a
    /// `u64` (which no link reaches).
    fn speed_of(&self, queue: usize) -> (r: u64)
        ensures
            r == (if speed_in(self.downloads@, queue) > u64::MAX { u64::MAX as nat } else { speed_in(self.downloads@, queue) }),
    {
        let mut sum: u64 = 0;
        let mut i: usize = 0;
        while i < self.downloads.len()
            invariant
                i <= self.downloads@.len(),
                sum == (if speed_in(self.downloads@.take(i as int), queue) > u64::MAX {
                    u64::MAX as nat
                } else {
                    speed_in(self.downloads@.take(i as int), queue)
                }),
            decreases self.downloads@.len() - i,
        {
            proof {
                assert(self.downloads@.take(i + 1).drop_last() =~= self.downloads@.take(i as int));
                assert(self.downloads@.take(i + 1).last() == self.downloads@[i as int]);
            }
            let d = &self.downloads[i];
            let running = match d.status {
                Status::Running => true,
                _ => false,
            };
            if d.queue == queue && running {
                match crate::parse::bytes(d.speed.as_str()) {
                    Some(n) => {
                        sum = if sum as u128 + n as u128 > u64::MAX as u128 { u64::MAX } else { sum + n };
                    },
                    None => {},
                }
            }
            i += 1;
        }
        proof {
            assert(self.downloads@.take(self.downloads@.len() as int) =~= self.downloads@);
        }
        sum
    }
}

// ---------------------------------------------------------------------------
// Laws
// ---------------------------------------------------------------------------

/// Whatever moves the selection, it lands on a row that is shown whenever
/// any row is: moving it, changing the filter, or clamping it after the
/// shown rows changed.
pub proof fn law_selection_stays_shown(vis: Seq<usize>, sel: usize, delta: int)
    requires
        vis.len() > 0,
    ensures
        vis.contains(moved_within(vis, sel, delta)),
        vis.contains(refiltered(vis, sel)),
        vis.contains(clamped_into(vis, sel)),
{
    lemma_first_index_some(vis, sel);
    let at = match first_index(vis, sel) {
        Some(k) => k,
        None => 0,
    };
    let k = clamped(at + delta, 0, vis.len() - 1);
    assert(vis[k] == moved_within(vis, sel, delta));
    assert(vis[0] == refiltered(vis, sel) || vis.contains(sel));
    lemma_last_at_most(vis, sel);
    match last_at_most(vis, sel) {
        Some(i) => {},
        None => {
            assert(vis[0] == clamped_into(vis, sel) || vis.contains(sel));
        },
    }
}

proof fn lemma_last_at_most(s: Seq<usize>, x: usize)
    ensures
        last_at_most(s, x) matches Some(i) ==> s.contains(i) && i <= x,
    decreases s.len(),
{
    if s.len() > 0 && s.last() > x {
        lemma_last_at_most(s.drop_last(), x);
        if last_at_most(s.drop_last(), x) is Some {
            let i = last_at_most(s.drop_last(), x).unwrap();
            let k = choose|k: int| 0 <= k < s.drop_last().len() && s.drop_last()[k] == i;
            assert(s[k] == i);
        }
    } else if s.len() > 0 {
        assert(s[s.len() - 1] == s.last());
    }
}

/// Removing a queue drops no download: every row stays, in its place, with
/// its id; the removed queue's rows are now the default queue's and no
/// other row changes.
pub proof fn law_removing_a_queue_keeps_every_download(ds: Seq<Download>, from: usize)
    requires
        from != DEFAULT,
    ensures
        moved_to_default(ds, from).len() == ds.len(),
        forall|i: int| 0 <= i < ds.len() ==> (#[trigger] moved_to_default(ds, from)[i]).id == ds[i].id
            && moved_to_default(ds, from)[i].url == ds[i].url
            && moved_to_default(ds, from)[i].queue == (if ds[i].queue == from { DEFAULT } else { ds[i].queue }),
        forall|i: int| 0 <= i < ds.len() ==> (#[trigger] moved_to_default(ds, from)[i]).queue != from,
{
}

/// The row that starts next is a waiting row, of a queue that is not
/// paused and has a slot free, and no row of that queue waiting longer is
/// passed over.
pub proof fn law_next_start_is_the_oldest_waiting_row(qs: Seq<Queue>, ds: Seq<Download>)
    ensures
        startable(qs, ds, 0) matches Some(k) ==> {
            &&& 0 <= k < ds.len()
            &&& ds[k].status is Queued
            &&& exists|i: int| 0 <= i < qs.len() && (#[trigger] qs[i]).id == ds[k].queue && !qs[i].paused
                && count_in(ds, qs[i].id, true) < qs[i].max_active
            &&& forall|j: int| 0 <= j < k ==> !((#[trigger] ds[j]).queue == ds[k].queue && ds[j].status is Queued)
        },
{
    lemma_start_from(qs, ds, 0);
}

proof fn lemma_start_from(qs: Seq<Queue>, ds: Seq<Download>, i: int)
    requires
        0 <= i,
    ensures
        startable(qs, ds, i) matches Some(k) ==> {
            &&& 0 <= k < ds.len()
            &&& ds[k].status is Queued
            &&& exists|m: int| i <= m < qs.len() && (#[trigger] qs[m]).id == ds[k].queue && !qs[m].paused
                && count_in(ds, qs[m].id, true) < qs[m].max_active
            &&& forall|j: int| 0 <= j < k ==> !((#[trigger] ds[j]).queue == ds[k].queue && ds[j].status is Queued)
        },
    decreases qs.len() - i,
{
    if i < qs.len() {
        lemma_start_from(qs, ds, i + 1);
        lemma_first_queued(ds, qs[i].id, 0);
        lemma_first_queued_first(ds, qs[i].id, 0);
    }
}

proof fn lemma_first_queued_first(ds: Seq<Download>, q: usize, i: int)
    requires
        0 <= i,
    ensures
        first_queued(ds, q, i) matches Some(k) ==> forall|j: int| i <= j < k ==> !((#[trigger] ds[j]).queue == q && ds[j].status is Queued),
        first_queued(ds, q, i) is None ==> forall|j: int| i <= j < ds.len() ==> !((#[trigger] ds[j]).queue == q && ds[j].status is Queued),
    decreases ds.len() - i,
{
    if i < ds.len() {
        lemma_first_queued_first(ds, q, i + 1);
    }
}
/// Queues run independently: whenever some queue is not paused, has a slot
/// free and holds a waiting row, a row is started, whatever any other
/// queue, before or after it, is doing.
pub proof fn law_free_queue_never_waits(qs: Seq<Queue>, ds: Seq<Download>, i: int, k: int)
    requires
        0 <= i < qs.len(),
        !qs[i].paused,
        count_in(ds, qs[i].id, true) < qs[i].max_active,
        0 <= k < ds.len(),
        ds[k].queue == qs[i].id,
        ds[k].status is Queued,
    ensures
        startable(qs, ds, 0) is Some,
{
    lemma_first_queued_first(ds, qs[i].id, 0);
    lemma_start_reaches(qs, ds, 0, i);
}

proof fn lemma_start_reaches(qs: Seq<Queue>, ds: Seq<Download>, j: int, i: int)
    requires
        0 <= j <= i < qs.len(),
        !qs[i].paused,
        count_in(ds, qs[i].id, true) < qs[i].max_active,
        first_queued(ds, qs[i].id, 0) is Some,
    ensures
        startable(qs, ds, j) is Some,
    decreases i - j,
{
    if j < i {
        lemma_start_reaches(qs, ds, j + 1, i);
    }
}

/// A failed row's retries come from its own queue: the first queue with
/// that id sets the limit, and a queue that is gone allows none.
pub proof fn law_retry_limit_is_the_rows_own_queue(qs: Seq<Queue>, q: usize)
    ensures
        forall|j: int| 0 <= j < qs.len() && (#[trigger] qs[j]).id == q
            && (forall|m: int| 0 <= m < j ==> (#[trigger] qs[m]).id != q)
            ==> retry_limit(qs, q) == qs[j].retry,
        (forall|j: int| 0 <= j < qs.len() ==> (#[trigger] qs[j]).id != q) ==> retry_limit(qs, q) == 0,
    decreases qs.len(),
{
    if qs.len() > 0 {
        law_retry_limit_is_the_rows_own_queue(qs.drop_first(), q);
        assert forall|j: int| 0 <= j < qs.len() && (#[trigger] qs[j]).id == q
            && (forall|m: int| 0 <= m < j ==> (#[trigger] qs[m]).id != q)
            implies retry_limit(qs, q) == qs[j].retry by {
            if j > 0 {
                assert(qs[0].id != q);
                let r = qs.drop_first();
                assert(r[j - 1] == qs[j]);
                assert forall|m: int| 0 <= m < j - 1 implies (#[trigger] r[m]).id != q by {
                    assert(r[m] == qs[m + 1]);
                }
            }
        }
        if forall|j: int| 0 <= j < qs.len() ==> (#[trigger] qs[j]).id != q {
            let r = qs.drop_first();
            assert(qs[0].id != q);
            assert forall|j: int| 0 <= j < r.len() implies (#[trigger] r[j]).id != q by {
                assert(r[j] == qs[j + 1]);
            }
        }
    }
}

/// The last text of a list that is not empty.
pub open spec fn last_nonempty(v: Seq<Seq<char>>) -> Option<Seq<char>>
    decreases v.len(),
{
    if v.len() == 0 {
        None
    } else if v.last().len() > 0 {
        Some(v.last())
    } else {
        last_nonempty(v.drop_last())
    }
}

/// What a row is called: the last part of the url's path that is not empty,
/// before any query or fragment; the url itself when there is none.
pub open spec fn name_text(url: Seq<char>) -> Seq<char> {
    match last_nonempty(seqs::split(seqs::before_any(url, seq!['?', '#']), '/')) {
        Some(n) => n,
        None => url,
    }
}

/// The file name a row shows, from its url, falling back to the url itself.
pub fn name_of(url: &str) -> (r: String)
    ensures
        r@ == name_text(url@),
{
    let u = text::chars_of(url);
    let path = text::before_any(u.as_slice(), text::two('?', '#').as_slice());
    let parts = text::split(path.as_slice(), '/');
    let ghost pv = seqs::views(parts@);
    let mut i: usize = parts.len();
    proof {
        assert(pv.take(pv.len() as int) =~= pv);
    }
    while i > 0
        invariant
            i <= parts@.len(),
            pv == seqs::views(parts@),
            pv == seqs::split(seqs::before_any(url@, seq!['?', '#']), '/'),
            last_nonempty(pv) == last_nonempty(pv.take(i as int)),
        decreases i,
    {
        let ghost t = pv.take(i as int);
        proof {
            assert(t.last() == parts@[i - 1]@);
            assert(t.drop_last() =~= pv.take(i - 1));
        }
        if parts[i - 1].len() > 0 {
            return text::string_of(parts[i - 1].as_slice());
        }
        i -= 1;
    }
    proof {
        assert(pv.take(0) =~= Seq::<Seq<char>>::empty());
    }
    text::string_of(u.as_slice())
}

} // verus!
