//! A download's lifecycle and the settings one download carries of its own.
use vstd::prelude::*;

use crate::text;

verus! {

/// Where a download stands.
#[derive(Debug, Clone, PartialEq)]
pub enum Status {
    /// Accepted, waiting for a free slot.
    Queued,
    Running,
    /// Process stopped; its slot is free until it resumes.
    Paused,
    Done,
    Failed(String),
    Cancelled,
}

/// Settings for one download alone. Empty means "as configured".
#[derive(Debug, Clone, Default, PartialEq)]
pub struct Overrides {
    pub dir: String,
    pub name: String,
    pub rate: String,
    /// A backend by name, set by a routing rule or a crawl.
    pub backend: String,
    /// Extra flags for the backend, set by a crawl.
    pub args: String,
    pub user: String,
    pub pass: String,
}

impl Overrides {
    /// Nothing is overridden.
    pub open spec fn empty_spec(&self) -> bool {
        &&& self.dir@.len() == 0
        &&& self.name@.len() == 0
        &&& self.rate@.len() == 0
        &&& self.backend@.len() == 0
        &&& self.args@.len() == 0
        &&& self.user@.len() == 0
        &&& self.pass@.len() == 0
    }

    /// Nothing is overridden.
    pub fn is_empty(&self) -> (r: bool)
        ensures
            r == self.empty_spec(),
    {
        self.dir.as_str().is_empty() && self.name.as_str().is_empty()
            && self.rate.as_str().is_empty() && self.backend.as_str().is_empty()
            && self.args.as_str().is_empty() && self.user.as_str().is_empty()
            && self.pass.as_str().is_empty()
    }
}

/// A status with its reason as text.
pub enum StatusView {
    Queued,
    Running,
    Paused,
    Done,
    Failed(Seq<char>),
    Cancelled,
}

pub open spec fn status_view(s: Status) -> StatusView {
    match s {
        Status::Queued => StatusView::Queued,
        Status::Running => StatusView::Running,
        Status::Paused => StatusView::Paused,
        Status::Done => StatusView::Done,
        Status::Failed(r) => StatusView::Failed(r@),
        Status::Cancelled => StatusView::Cancelled,
    }
}

/// A download's own settings as character sequences.
pub struct OverView {
    pub dir: Seq<char>,
    pub name: Seq<char>,
    pub rate: Seq<char>,
    pub backend: Seq<char>,
    pub user: Seq<char>,
    pub pass: Seq<char>,
    pub args: Seq<char>,
}

pub open spec fn over_view(o: Overrides) -> OverView {
    OverView {
        dir: o.dir@,
        name: o.name@,
        rate: o.rate@,
        backend: o.backend@,
        user: o.user@,
        pass: o.pass@,
        args: o.args@,
    }
}

impl Status {
    /// The same status, its reason copied.
    pub fn copy(&self) -> (r: Status)
        ensures
            status_view(r) == status_view(*self),
    {
        match self {
            Status::Queued => Status::Queued,
            Status::Running => Status::Running,
            Status::Paused => Status::Paused,
            Status::Done => Status::Done,
            Status::Failed(why) => Status::Failed(text::string_of(text::chars_of(why.as_str()).as_slice())),
            Status::Cancelled => Status::Cancelled,
        }
    }
}

impl Overrides {
    /// The same settings, copied.
    pub fn copy(&self) -> (r: Overrides)
        ensures
            over_view(r) == over_view(*self),
    {
        Overrides {
            dir: text::string_of(text::chars_of(self.dir.as_str()).as_slice()),
            name: text::string_of(text::chars_of(self.name.as_str()).as_slice()),
            rate: text::string_of(text::chars_of(self.rate.as_str()).as_slice()),
            backend: text::string_of(text::chars_of(self.backend.as_str()).as_slice()),
            args: text::string_of(text::chars_of(self.args.as_str()).as_slice()),
            user: text::string_of(text::chars_of(self.user.as_str()).as_slice()),
            pass: text::string_of(text::chars_of(self.pass.as_str()).as_slice()),
        }
    }
}

/// Which rows the list shows.
#[derive(Debug, Clone, Copy, PartialEq, Eq)]
pub enum Filter {
    All,
    Active,
    Done,
    Failed,
}

/// A status a filter shows: active is everything still to finish, failed
/// covers cancelled.
pub open spec fn filter_shows(f: Filter, s: Status) -> bool {
    match f {
        Filter::All => true,
        Filter::Active => s is Running || s is Queued || s is Paused,
        Filter::Done => s is Done,
        Filter::Failed => s is Failed || s is Cancelled,
    }
}

impl Filter {
    /// Every filter, in the order Tab cycles through them.
    pub fn all() -> (r: [Filter; 4])
        ensures
            r@ == seq![Filter::All, Filter::Active, Filter::Done, Filter::Failed],
    {
        let r = [Filter::All, Filter::Active, Filter::Done, Filter::Failed];
        proof {
            assert(r@ =~= seq![Filter::All, Filter::Active, Filter::Done, Filter::Failed]);
        }
        r
    }

    pub fn label(self) -> (r: &'static str)
        ensures
            r@ == match self {
                Filter::All => "all"@,
                Filter::Active => "active"@,
                Filter::Done => "done"@,
                Filter::Failed => "failed"@,
            },
    {
        match self {
            Filter::All => "all",
            Filter::Active => "active",
            Filter::Done => "done",
            Filter::Failed => "failed",
        }
    }

    /// Whether a row with this status is shown.
    pub fn matches(self, status: &Status) -> (r: bool)
        ensures
            r == filter_shows(self, *status),
    {
        match self {
            Filter::All => true,
            Filter::Active => match status {
                Status::Running | Status::Queued | Status::Paused => true,
                _ => false,
            },
            Filter::Done => match status {
                Status::Done => true,
                _ => false,
            },
            Filter::Failed => match status {
                Status::Failed(_) | Status::Cancelled => true,
                _ => false,
            },
        }
    }
}

} // verus!
