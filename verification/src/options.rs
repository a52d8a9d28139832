//! The options panel for one backend: a form over `option::specs`, backed by
//! the same `<backend>.args` file the spawner reads.
use vstd::prelude::*;

use crate::args;
use crate::backend::Tool;
use crate::edit::{self, typed_into, Key, Mods};
use crate::utils::strings;
use crate::option::{self, Kind, KindView, OptSpec, OptSpecView, Preset, preset_views, opt_views};
use crate::seqs;
use crate::text;

verus! {

/// The options panel for one backend.
pub struct Options {
    pub backend: &'static str,
    pub cursor: usize,
    /// Every flag in the file, known or not, in file order.
    pub pairs: Vec<(String, String)>,
    /// Text being typed for the selected value option.
    pub editing: Option<String>,
    /// Where the caret sits in it, as a byte position. `usize::MAX` means the
    /// end, which is where a field that has just been opened starts.
    pub caret: usize,
}

/// The panel with its texts as character sequences.
#[verifier::ext_equal]
pub struct OptionsView {
    pub backend: Seq<char>,
    pub cursor: usize,
    pub pairs: Seq<(Seq<char>, Seq<char>)>,
    pub editing: Option<Seq<char>>,
    pub caret: usize,
}

impl View for Options {
    type V = OptionsView;

    open spec fn view(&self) -> OptionsView {
        OptionsView {
            backend: self.backend@,
            cursor: self.cursor,
            pairs: args::pair_views(self.pairs@),
            editing: match self.editing {
                Some(s) => Some(s@),
                None => None,
            },
            caret: self.caret,
        }
    }
}

/// What the panel asks the app to do; everything else it handles itself.
#[derive(Debug, Clone, Copy, PartialEq, Eq)]
pub enum Action {
    /// Nothing for the app to do.
    Nothing,
    /// Save the backend form and close.
    Close,
    NextTheme,
    PrevTheme,
    EditDir,
    ToggleNerd,
    ToggleConfirmPlaylist,
    /// Sync the channel at this index, picking from what it finds.
    SyncChannel(usize),
    /// Sync every channel, queueing everything since each one's last sync.
    SyncChannels,
    /// Show this backend's form: save the one shown, then open this one.
    Backend(Tool),
    /// Empty the log.
    ClearLog,
}

// ---------------------------------------------------------------------------
// Specifications
// ---------------------------------------------------------------------------

/// The first pair at or after `i` whose flag is `name`.
pub open spec fn index_from(ps: Seq<(Seq<char>, Seq<char>)>, name: Seq<char>, i: int) -> Option<int>
    decreases ps.len() - i,
{
    if i < 0 || i >= ps.len() {
        None
    } else if ps[i].0 == name {
        Some(i)
    } else {
        index_from(ps, name, i + 1)
    }
}

/// A flag's current value: `None` when unset, empty for an enabled bare flag.
pub open spec fn value_in(ps: Seq<(Seq<char>, Seq<char>)>, flag: Seq<char>) -> Option<Seq<char>> {
    match index_from(ps, args::pair_of(flag).0, 0) {
        Some(i) => Some(ps[i].1),
        None => None,
    }
}

/// A spec may carry its value (`--seed-time=0`) while the file stores it
/// split, so a match is on the name and, when the spec pins one, the value.
pub open spec fn set_in(ps: Seq<(Seq<char>, Seq<char>)>, flag: Seq<char>) -> bool {
    let (name, want) = args::pair_of(flag);
    exists|i: int| 0 <= i < ps.len() && ps[i].0 == name && (want.len() == 0 || ps[i].1 == want)
}

/// The flag set to `value` (its pinned value when `value` is empty): the
/// first pair with its name changes, or a new pair goes at the end.
pub open spec fn with_set(ps: Seq<(Seq<char>, Seq<char>)>, flag: Seq<char>, value: Seq<char>) -> Seq<
    (Seq<char>, Seq<char>),
> {
    let (name, pinned) = args::pair_of(flag);
    let v = if value.len() == 0 {
        pinned
    } else {
        value
    };
    match index_from(ps, name, 0) {
        Some(i) => ps.update(i, (name, v)),
        None => ps.push((name, v)),
    }
}

/// Every pair whose flag is not `name`.
pub open spec fn drop_named(ps: Seq<(Seq<char>, Seq<char>)>, name: Seq<char>) -> Seq<
    (Seq<char>, Seq<char>),
>
    decreases ps.len(),
{
    if ps.len() == 0 {
        ps
    } else if ps.last().0 == name {
        drop_named(ps.drop_last(), name)
    } else {
        drop_named(ps.drop_last(), name).push(ps.last())
    }
}

/// The flag removed, whatever its value.
pub open spec fn without_flag(ps: Seq<(Seq<char>, Seq<char>)>, flag: Seq<char>) -> Seq<
    (Seq<char>, Seq<char>),
> {
    drop_named(ps, args::pair_of(flag).0)
}

/// The flag switched: off when set, on when not.
pub open spec fn toggled(ps: Seq<(Seq<char>, Seq<char>)>, flag: Seq<char>) -> Seq<
    (Seq<char>, Seq<char>),
> {
    if set_in(ps, flag) {
        without_flag(ps, flag)
    } else {
        with_set(ps, flag, seq![])
    }
}

/// The first preset at or after `i` with this value.
pub open spec fn preset_from(presets: Seq<(Seq<char>, Seq<char>)>, v: Seq<char>, i: int) -> Option<int>
    decreases presets.len() - i,
{
    if i < 0 || i >= presets.len() {
        None
    } else if presets[i].1 == v {
        Some(i)
    } else {
        preset_from(presets, v, i + 1)
    }
}

/// The preset a flag's current value names, if it is one of them.
pub open spec fn preset_in(
    ps: Seq<(Seq<char>, Seq<char>)>,
    flag: Seq<char>,
    presets: Seq<(Seq<char>, Seq<char>)>,
) -> Option<int> {
    match value_in(ps, flag) {
        Some(v) => preset_from(presets, v, 0),
        None => None,
    }
}

/// The flag stepped to the next preset, wrapping. An unset flag, or one
/// holding a hand-written value, lands on the first one.
pub open spec fn cycled(
    ps: Seq<(Seq<char>, Seq<char>)>,
    flag: Seq<char>,
    presets: Seq<(Seq<char>, Seq<char>)>,
) -> Seq<(Seq<char>, Seq<char>)> {
    let next = match preset_in(ps, flag, presets) {
        Some(j) => (j + 1) % (presets.len() as int),
        None => 0,
    };
    with_set(ps, flag, presets[next].1)
}

/// The names the specs go by.
pub open spec fn spec_names(specs: Seq<OptSpecView>) -> Seq<Seq<char>> {
    specs.map_values(|s: OptSpecView| args::pair_of(s.flag).0)
}

/// The pairs with no spec, in file order.
pub open spec fn unknown_in(ps: Seq<(Seq<char>, Seq<char>)>, names: Seq<Seq<char>>) -> Seq<
    (Seq<char>, Seq<char>),
>
    decreases ps.len(),
{
    if ps.len() == 0 {
        ps
    } else if names.contains(ps.last().0) {
        unknown_in(ps.drop_last(), names)
    } else {
        unknown_in(ps.drop_last(), names).push(ps.last())
    }
}

/// What one key does to the panel, and whether the panel should close.
pub open spec fn act_spec(o: OptionsView, key: Key, mods: Mods) -> (OptionsView, bool) {
    let specs = option::table(o.backend);
    if o.cursor >= specs.len() {
        (o, true)
    } else {
        let spec = specs[o.cursor as int];
        let flag = spec.flag;
        match o.editing {
            Some(buf) => {
                // Editing a value takes the keyboard until Enter or Esc.
                let (used, buf2, caret2) = typed_into(buf, o.caret as int, key, mods);
                let o2 = OptionsView { caret: caret2 as usize, editing: None, ..o };
                if used {
                    (OptionsView { editing: Some(buf2), ..o2 }, false)
                } else if key == Key::Enter {
                    if seqs::trim(buf2).len() == 0 {
                        (OptionsView { pairs: without_flag(o.pairs, flag), ..o2 }, false)
                    } else {
                        (OptionsView { pairs: with_set(o.pairs, flag, seqs::trim(buf2)), ..o2 }, false)
                    }
                } else if key == Key::Esc {
                    (o2, false)
                } else {
                    (OptionsView { editing: Some(buf2), ..o2 }, false)
                }
            },
            None => {
                let last = (specs.len() - 1) as usize;
                if key == Key::Esc || key == Key::Char('q') {
                    (o, true)
                } else if key == Key::Down || key == Key::Char('j') {
                    (OptionsView { cursor: if o.cursor + 1 < last { (o.cursor + 1) as usize } else { last }, ..o }, false)
                } else if key == Key::Up || key == Key::Char('k') {
                    (OptionsView { cursor: if o.cursor > 0 { (o.cursor - 1) as usize } else { 0 }, ..o }, false)
                } else if key == Key::Char('g') {
                    (OptionsView { cursor: 0, ..o }, false)
                } else if key == Key::Char('G') {
                    (OptionsView { cursor: last, ..o }, false)
                } else if key == Key::Char('x') || key == Key::Delete {
                    (OptionsView { pairs: without_flag(o.pairs, flag), ..o }, false)
                } else if key == Key::Enter || key == Key::Char(' ') {
                    match spec.kind {
                        KindView::Choice(presets) => if presets.len() > 0 {
                            (OptionsView { pairs: cycled(o.pairs, flag, presets), ..o }, false)
                        } else {
                            (o, false)
                        },
                        KindView::Value => (OptionsView {
                            editing: Some(
                                match value_in(o.pairs, flag) {
                                    Some(v) => v,
                                    None => seq![],
                                },
                            ),
                            ..o
                        }, false),
                        KindView::Flag => (OptionsView { pairs: toggled(o.pairs, flag), ..o }, false),
                    }
                } else {
                    (o, false)
                }
            },
        }
    }
}

/// A key as the panel takes it: a field that has just opened puts its caret
/// at the end of whatever it was prefilled with.
pub open spec fn on_key_spec(o: OptionsView, key: Key, mods: Mods) -> (OptionsView, bool) {
    let (o2, close) = act_spec(o, key, mods);
    if o.editing is None && o2.editing is Some {
        (OptionsView { caret: usize::MAX, ..o2 }, close)
    } else {
        (o2, close)
    }
}

/// The panel's caret is where the field being typed can take it.
pub open spec fn caret_ok(o: OptionsView) -> bool {
    o.editing matches Some(buf) ==> edit::at_boundary(buf, o.caret as int)
}

// ---------------------------------------------------------------------------
// Executable
// ---------------------------------------------------------------------------

/// A spec flag as (name, pinned value).
fn split(flag: &str) -> (r: (Vec<char>, Vec<char>))
    ensures
        (r.0@, r.1@) == args::pair_of(flag@),
{
    let f = text::chars_of(flag);
    match text::split_once(f.as_slice(), text::one('=').as_slice()) {
        Some(p) => p,
        None => {
            let n = f.len();
            let all = text::slice_of(f.as_slice(), 0, n);
            proof {
                assert(all@ =~= f@);
            }
            (all, Vec::new())
        },
    }
}

/// The first pair whose flag is `name`.
fn index_of(pairs: &[(String, String)], name: &[char]) -> (r: Option<usize>)
    ensures
        match index_from(args::pair_views(pairs@), name@, 0) {
            Some(i) => r matches Some(k) && k as int == i && 0 <= i < pairs@.len(),
            None => r is None,
        },
{
    let ghost ps = args::pair_views(pairs@);
    let mut i: usize = 0;
    while i < pairs.len()
        invariant
            i <= pairs@.len(),
            ps == args::pair_views(pairs@),
            index_from(ps, name@, 0) == index_from(ps, name@, i as int),
        decreases pairs@.len() - i,
    {
        if text::same(text::chars_of(pairs[i].0.as_str()).as_slice(), name) {
            proof {
                assert(ps[i as int].0 == pairs@[i as int].0@);
            }
            return Some(i);
        }
        i += 1;
    }
    None
}

proof fn lemma_index_from(ps: Seq<(Seq<char>, Seq<char>)>, name: Seq<char>, i: int)
    requires
        0 <= i,
    ensures
        match index_from(ps, name, i) {
            Some(j) => i <= j < ps.len() && ps[j].0 == name && forall|k: int| i <= k < j ==> ps[k].0 != name,
            None => forall|j: int| i <= j < ps.len() ==> ps[j].0 != name,
        },
    decreases ps.len() - i,
{
    if i < ps.len() && ps[i].0 != name {
        lemma_index_from(ps, name, i + 1);
    }
}

/// The first pair with the name is found where it is.
proof fn lemma_index_at(ps: Seq<(Seq<char>, Seq<char>)>, name: Seq<char>, i: int, j: int)
    requires
        0 <= i <= j < ps.len(),
        ps[j].0 == name,
        forall|k: int| i <= k < j ==> ps[k].0 != name,
    ensures
        index_from(ps, name, i) == Some(j),
    decreases j - i,
{
    if i < j {
        lemma_index_at(ps, name, i + 1, j);
    }
}

/// No pair left has the dropped name, and every other pair stays.
proof fn lemma_drop_named(ps: Seq<(Seq<char>, Seq<char>)>, name: Seq<char>)
    ensures
        forall|i: int| 0 <= i < drop_named(ps, name).len() ==> (#[trigger] drop_named(ps, name)[i]).0 != name,
    decreases ps.len(),
{
    if ps.len() > 0 {
        lemma_drop_named(ps.drop_last(), name);
        let r = drop_named(ps.drop_last(), name);
        if ps.last().0 != name {
            assert forall|i: int| 0 <= i < r.push(ps.last()).len() implies (#[trigger] r.push(ps.last())[i]).0
                != name by {
                if i < r.len() {
                    assert(r.push(ps.last())[i] == r[i]);
                }
            }
        }
    }
}

/// A flag set to a value reads back as that value, or as its pinned value
/// when the value given is empty.
pub proof fn law_set_reads_back(ps: Seq<(Seq<char>, Seq<char>)>, flag: Seq<char>, value: Seq<char>)
    ensures
        value_in(with_set(ps, flag, value), flag) == Some(
            if value.len() == 0 {
                args::pair_of(flag).1
            } else {
                value
            },
        ),
        set_in(with_set(ps, flag, value), flag) <== (value.len() == 0 || value == args::pair_of(flag).1
            || args::pair_of(flag).1.len() == 0),
{
    let (name, pinned) = args::pair_of(flag);
    let v = if value.len() == 0 {
        pinned
    } else {
        value
    };
    lemma_index_from(ps, name, 0);
    match index_from(ps, name, 0) {
        Some(i) => {
            let u = ps.update(i, (name, v));
            assert forall|k: int| 0 <= k < i implies u[k].0 != name by {
                assert(u[k] == ps[k]);
            }
            lemma_index_at(u, name, 0, i);
            assert(u[i] == (name, v));
        },
        None => {
            let u = ps.push((name, v));
            assert forall|k: int| 0 <= k < ps.len() implies u[k].0 != name by {
                assert(u[k] == ps[k]);
            }
            lemma_index_at(u, name, 0, ps.len() as int);
            assert(u[ps.len() as int] == (name, v));
        },
    }
}

/// An unset flag is not set, whatever its value was.
pub proof fn law_unset_clears(ps: Seq<(Seq<char>, Seq<char>)>, flag: Seq<char>)
    ensures
        !set_in(without_flag(ps, flag), flag),
        value_in(without_flag(ps, flag), flag) is None,
{
    let name = args::pair_of(flag).0;
    lemma_drop_named(ps, name);
    let r = drop_named(ps, name);
    lemma_index_from(r, name, 0);
    if set_in(r, flag) {
        let i = choose|i: int| 0 <= i < r.len() && r[i].0 == name && (args::pair_of(flag).1.len() == 0 || r[i].1 == args::pair_of(flag).1);
        assert(r[i].0 != name);
    }
}

/// Toggling a flag flips whether it is set.
pub proof fn law_toggle_flips(ps: Seq<(Seq<char>, Seq<char>)>, flag: Seq<char>)
    ensures
        set_in(toggled(ps, flag), flag) == !set_in(ps, flag),
{
    if set_in(ps, flag) {
        law_unset_clears(ps, flag);
    } else {
        law_set_reads_back(ps, flag, seq![]);
        let (name, pinned) = args::pair_of(flag);
        let u = with_set(ps, flag, seq![]);
        lemma_index_from(u, name, 0);
        let i = choose|i: int| index_from(u, name, 0) == Some(i);
        assert(u[i].0 == name && u[i].1 == pinned);
    }
}

proof fn lemma_preset_from(presets: Seq<(Seq<char>, Seq<char>)>, v: Seq<char>, i: int)
    requires
        0 <= i,
    ensures
        match preset_from(presets, v, i) {
            Some(j) => i <= j < presets.len() && presets[j].1 == v,
            None => forall|j: int| i <= j < presets.len() ==> presets[j].1 != v,
        },
    decreases presets.len() - i,
{
    if i < presets.len() && presets[i].1 != v {
        lemma_preset_from(presets, v, i + 1);
    }
}

/// The panel as it opens for a backend over the flags saved for it: at
/// its top, nothing being typed.
pub open spec fn opened(backend: Seq<char>, saved: Seq<String>) -> OptionsView {
    OptionsView {
        backend,
        cursor: 0,
        pairs: strings(saved).map_values(|t: Seq<char>| args::pair_of(t)),
        editing: None,
        caret: usize::MAX,
    }
}

impl Options {
    /// The panel for a backend, over the flags saved for it.
    pub fn open(backend: &'static str, saved: &[String]) -> (r: Options)
        ensures
            r@ == opened(backend@, saved@),
    {
        Options { backend, cursor: 0, pairs: args::to_pairs(saved), editing: None, caret: usize::MAX }
    }

    /// The options this panel shows.
    pub fn specs(&self) -> (r: Vec<OptSpec>)
        ensures
            opt_views(r@) == option::table(self.backend@),
    {
        option::specs(self.backend)
    }

    /// Current value: `None` when unset, `Some("")` for an enabled bare flag.
    pub fn value(&self, flag: &str) -> (r: Option<&str>)
        ensures
            match value_in(self@.pairs, flag@) {
                Some(v) => r matches Some(s) && s@ == v,
                None => r is None,
            },
    {
        let (name, _) = split(flag);
        match index_of(self.pairs.as_slice(), name.as_slice()) {
            Some(i) => {
                proof {
                    assert(self@.pairs[i as int] == (self.pairs@[i as int].0@, self.pairs@[i as int].1@));
                    assert(name@ == args::pair_of(flag@).0);
                    assert(index_from(self@.pairs, name@, 0) == Some(i as int));
                    assert(value_in(self@.pairs, flag@) == Some(self@.pairs[i as int].1));
                }
                let s = self.pairs[i].1.as_str();
                assert(s@ == self.pairs@[i as int].1@);
                Some(s)
            },
            None => None,
        }
    }

    /// The flag is set; a spec that pins a value matches only that value.
    pub fn is_set(&self, flag: &str) -> (r: bool)
        ensures
            r == set_in(self@.pairs, flag@),
    {
        let (name, want) = split(flag);
        let ghost ps = self@.pairs;
        let mut i: usize = 0;
        while i < self.pairs.len()
            invariant
                i <= self.pairs@.len(),
                ps == args::pair_views(self.pairs@),
                (name@, want@) == args::pair_of(flag@),
                forall|j: int|
                    0 <= j < i ==> !(ps[j].0 == name@ && (want@.len() == 0 || ps[j].1 == want@)),
            decreases self.pairs@.len() - i,
        {
            let f = text::chars_of(self.pairs[i].0.as_str());
            let v = text::chars_of(self.pairs[i].1.as_str());
            if text::same(f.as_slice(), name.as_slice()) && (want.len() == 0 || text::same(
                v.as_slice(),
                want.as_slice(),
            )) {
                proof {
                    assert(ps[i as int] == (self.pairs@[i as int].0@, self.pairs@[i as int].1@));
                }
                return true;
            }
            proof {
                assert(ps[i as int] == (self.pairs@[i as int].0@, self.pairs@[i as int].1@));
            }
            i += 1;
        }
        false
    }

    /// Sets the flag to `value`, or to its pinned value when `value` is
    /// empty.
    fn set(&mut self, flag: &str, value: &str)
        ensures
            final(self)@ == (OptionsView { pairs: with_set(old(self)@.pairs, flag@, value@), ..old(self)@ }),
    {
        let (name, pinned) = split(flag);
        let v = if value.is_empty() {
            pinned
        } else {
            text::chars_of(value)
        };
        let pair = (text::string_of(name.as_slice()), text::string_of(v.as_slice()));
        proof {
            if value@.len() == 0 {
                reveal_strlit("");
            }
        }
        match index_of(self.pairs.as_slice(), name.as_slice()) {
            Some(i) => {
                self.pairs.set(i, pair);
                proof {
                    assert(self@.pairs =~= old(self)@.pairs.update(i as int, (name@, v@)));
                }
            },
            None => {
                self.pairs.push(pair);
                proof {
                    assert(self@.pairs =~= old(self)@.pairs.push((name@, v@)));
                }
            },
        }
    }

    /// Removes the flag, whatever its value.
    pub fn unset(&mut self, flag: &str)
        ensures
            final(self)@ == (OptionsView { pairs: without_flag(old(self)@.pairs, flag@), ..old(self)@ }),
    {
        let (name, _) = split(flag);
        let ghost ps = self@.pairs;
        let mut kept: Vec<(String, String)> = Vec::new();
        let mut i: usize = 0;
        proof {
            assert(ps.take(0) =~= Seq::<(Seq<char>, Seq<char>)>::empty());
            assert(args::pair_views(kept@) =~= Seq::<(Seq<char>, Seq<char>)>::empty());
        }
        while i < self.pairs.len()
            invariant
                i <= self.pairs@.len(),
                ps == args::pair_views(self.pairs@),
                name@ == args::pair_of(flag@).0,
                args::pair_views(kept@) == drop_named(ps.take(i as int), name@),
            decreases self.pairs@.len() - i,
        {
            proof {
                assert(ps.take(i + 1).drop_last() =~= ps.take(i as int));
                assert(ps.take(i + 1).last() == (self.pairs@[i as int].0@, self.pairs@[i as int].1@));
            }
            if !text::same(text::chars_of(self.pairs[i].0.as_str()).as_slice(), name.as_slice()) {
                let p = (self.pairs[i].0.clone(), self.pairs[i].1.clone());
                kept.push(p);
                proof {
                    assert(args::pair_views(kept@) =~= drop_named(ps.take(i as int), name@).push(
                        ps[i as int],
                    ));
                }
            }
            i += 1;
        }
        proof {
            assert(ps.take(self.pairs@.len() as int) =~= ps);
        }
        self.pairs = kept;
    }

    /// Where in `presets` the flag's current value is, if it is one of them.
    fn preset_index(&self, flag: &str, presets: &[Preset]) -> (r: Option<usize>)
        ensures
            match preset_in(self@.pairs, flag@, preset_views(presets@)) {
                Some(j) => r matches Some(k) && k as int == j && 0 <= j < presets@.len(),
                None => r is None,
            },
    {
        let v = match self.value(flag) {
            Some(v) => text::chars_of(v),
            None => return None,
        };
        let ghost pv = preset_views(presets@);
        proof {
            lemma_preset_from(pv, v@, 0);
            assert(value_in(self@.pairs, flag@) == Some(v@));
            assert(preset_in(self@.pairs, flag@, pv) == preset_from(pv, v@, 0));
        }
        let mut j: usize = 0;
        while j < presets.len()
            invariant
                j <= presets@.len(),
                pv == preset_views(presets@),
                preset_from(pv, v@, 0) == preset_from(pv, v@, j as int),
                preset_in(self@.pairs, flag@, pv) == preset_from(pv, v@, 0),
            decreases presets@.len() - j,
        {
            proof {
                assert(pv[j as int] == (presets@[j as int].label@, presets@[j as int].value@));
            }
            if text::same(text::chars_of(presets[j].value).as_slice(), v.as_slice()) {
                proof {
                    assert(pv[j as int].1 == v@);
                    assert(preset_from(pv, v@, j as int) == Some(j as int));
                }
                return Some(j);
            }
            j += 1;
        }
        None
    }

    /// The preset a flag's current value names, if it is one of them.
    pub fn preset(&self, flag: &str, presets: &[Preset]) -> (r: Option<Preset>)
        ensures
            match preset_in(self@.pairs, flag@, preset_views(presets@)) {
                Some(j) => 0 <= j < presets@.len() && r == Some(presets@[j]),
                None => r is None,
            },
    {
        match self.preset_index(flag, presets) {
            Some(j) => Some(presets[j]),
            None => None,
        }
    }

    /// Step to the next preset, wrapping. An unset flag, or one holding a
    /// hand-written value, lands on the first one rather than losing its
    /// place, so cycling never silently drops what someone typed twice.
    fn cycle(&mut self, flag: &str, presets: &[Preset])
        requires
            presets@.len() > 0,
        ensures
            final(self)@ == (OptionsView {
                pairs: cycled(old(self)@.pairs, flag@, preset_views(presets@)),
                ..old(self)@
            }),
    {
        let found = self.preset_index(flag, presets);
        let next = match found {
            Some(j) => if j < presets.len() - 1 {
                j + 1
            } else {
                0
            },
            None => 0,
        };
        proof {
            let pv = preset_views(presets@);
            assert(pv.len() == presets@.len());
            match preset_in(old(self)@.pairs, flag@, pv) {
                Some(jj) => {
                    assert(found matches Some(k) && k as int == jj);
                    let n = pv.len() as int;
                    if jj < n - 1 {
                        assert((jj + 1) % n == jj + 1) by (nonlinear_arith)
                            requires
                                0 <= jj + 1 < n,
                        ;
                    } else {
                        assert((jj + 1) % n == 0) by (nonlinear_arith)
                            requires
                                jj + 1 == n,
                                n > 0,
                        ;
                    }
                    assert(next as int == (jj + 1) % (pv.len() as int));
                },
                None => {
                    assert(next == 0);
                },
            }
            assert(pv[next as int].1 == presets@[next as int].value@);
        }
        self.set(flag, presets[next].value);
    }

    /// Switches a flag: off when set, on (at its pinned value) when not.
    pub fn toggle(&mut self, flag: &str)
        ensures
            final(self)@ == (OptionsView { pairs: toggled(old(self)@.pairs, flag@), ..old(self)@ }),
    {
        if self.is_set(flag) {
            self.unset(flag);
        } else {
            self.set(flag, "");
            proof {
                reveal_strlit("");
                assert(""@ =~= Seq::<char>::empty());
            }
        }
    }

    /// Flags with no spec, shown read-only so the panel never eats them.
    pub fn unknown(&self) -> (r: Vec<&(String, String)>)
        ensures
            r@.map_values(|p: &(String, String)| (p.0@, p.1@)) == unknown_in(
                self@.pairs,
                spec_names(option::table(self.backend@)),
            ),
    {
        let specs = self.specs();
        let ghost names = spec_names(option::table(self.backend@));
        let mut known: Vec<Vec<char>> = Vec::new();
        let mut s: usize = 0;
        while s < specs.len()
            invariant
                s <= specs@.len(),
                opt_views(specs@) == option::table(self.backend@),
                names == spec_names(option::table(self.backend@)),
                seqs::views(known@) == names.take(s as int),
            decreases specs@.len() - s,
        {
            let (name, _) = split(specs[s].flag);
            let ghost before = known@;
            known.push(name);
            proof {
                assert(opt_views(specs@)[s as int].flag == specs@[s as int].flag@);
                assert(names[s as int] == args::pair_of(specs@[s as int].flag@).0);
                assert(seqs::views(known@) =~= seqs::views(before).push(name@));
                assert(names.take(s + 1) =~= names.take(s as int).push(names[s as int]));
            }
            s += 1;
        }
        proof {
            assert(names.len() == specs@.len());
            assert(names.take(specs@.len() as int) =~= names);
        }
        let ghost ps = self@.pairs;
        let mut r: Vec<&(String, String)> = Vec::new();
        let mut i: usize = 0;
        proof {
            assert(ps.take(0) =~= Seq::<(Seq<char>, Seq<char>)>::empty());
            assert(r@.map_values(|p: &(String, String)| (p.0@, p.1@)) =~= Seq::<(Seq<char>, Seq<char>)>::empty());
        }
        while i < self.pairs.len()
            invariant
                i <= self.pairs@.len(),
                ps == args::pair_views(self.pairs@),
                seqs::views(known@) == names,
                r@.map_values(|p: &(String, String)| (p.0@, p.1@)) == unknown_in(ps.take(i as int), names),
            decreases self.pairs@.len() - i,
        {
            let f = text::chars_of(self.pairs[i].0.as_str());
            let mut found = false;
            let mut k: usize = 0;
            while k < known.len()
                invariant
                    k <= known@.len(),
                    seqs::views(known@) == names,
                    found == exists|j: int| 0 <= j < k && names[j] == f@,
                decreases known@.len() - k,
            {
                proof {
                    assert(names[k as int] == known@[k as int]@);
                }
                if text::same(known[k].as_slice(), f.as_slice()) {
                    found = true;
                }
                k += 1;
            }
            proof {
                assert(ps.take(i + 1).drop_last() =~= ps.take(i as int));
                assert(ps.take(i + 1).last() == (self.pairs@[i as int].0@, self.pairs@[i as int].1@));
                assert(f@ == ps[i as int].0);
                if found {
                    let j = choose|j: int| 0 <= j < known@.len() && names[j] == f@;
                    assert(names.contains(f@));
                } else {
                    assert(!names.contains(f@));
                }
            }
            if !found {
                let ghost before = r@;
                r.push(&self.pairs[i]);
                proof {
                    assert(r@.map_values(|p: &(String, String)| (p.0@, p.1@)) =~= before.map_values(
                        |p: &(String, String)| (p.0@, p.1@),
                    ).push(ps[i as int]));
                }
            }
            i += 1;
        }
        proof {
            assert(ps.take(self.pairs@.len() as int) =~= ps);
        }
        r
    }

    /// The text saving writes to the backend's flags file.
    pub fn save(&self) -> (r: String)
        ensures
            r@ == args::joined(self@.pairs.map_values(|p: (Seq<char>, Seq<char>)| args::line_of(p))),
    {
        args::render(self.pairs.as_slice())
    }
    /// One key: editing a value takes the keyboard until Enter or Esc;
    /// otherwise keys move, clear, cycle, toggle or open the selected option.
    fn act(&mut self, key: Key, mods: Mods) -> (close: bool)
        ensures
            (final(self)@, close) == act_spec(old(self)@, key, mods),
    {
        let specs = self.specs();
        if self.cursor >= specs.len() {
            return true;
        }
        let spec = &specs[self.cursor];
        let flag = spec.flag;
        proof {
            assert(opt_views(specs@)[self.cursor as int] == option::opt_view(specs@[self.cursor as int]));
        }
        let mut cur: Option<String> = None;
        std::mem::swap(&mut cur, &mut self.editing);
        match cur {
            Some(buf) => {
                let mut buf = buf;
                let mut at = self.caret;
                let used = edit::key(&mut buf, &mut at, key, mods);
                self.caret = at;
                if used {
                    self.editing = Some(buf);
                    return false;
                }
                match key {
                    Key::Enter => {
                        let t = text::trim(text::chars_of(buf.as_str()).as_slice());
                        if t.len() == 0 {
                            self.unset(flag);
                        } else {
                            self.set(flag, text::string_of(t.as_slice()).as_str());
                        }
                    },
                    Key::Esc => {},
                    _ => {
                        self.editing = Some(buf);
                    },
                }
                false
            },
            None => {
                let last = specs.len() - 1;
                match key {
                    Key::Esc | Key::Char('q') => {
                        return true;
                    },
                    Key::Down | Key::Char('j') => {
                        self.cursor = if self.cursor + 1 < last {
                            self.cursor + 1
                        } else {
                            last
                        };
                    },
                    Key::Up | Key::Char('k') => {
                        self.cursor = if self.cursor > 0 {
                            self.cursor - 1
                        } else {
                            0
                        };
                    },
                    Key::Char('g') => {
                        self.cursor = 0;
                    },
                    Key::Char('G') => {
                        self.cursor = last;
                    },
                    Key::Char('x') | Key::Delete => {
                        self.unset(flag);
                    },
                    Key::Enter | Key::Char(' ') => match &spec.kind {
                        Kind::Choice(presets) => {
                            if presets.len() > 0 {
                                self.cycle(flag, presets.as_slice());
                            }
                        },
                        Kind::Value => {
                            let start = match self.value(flag) {
                                Some(v) => text::string_of(text::chars_of(v).as_slice()),
                                None => String::new(),
                            };
                            self.editing = Some(start);
                        },
                        Kind::Flag => {
                            self.toggle(flag);
                        },
                    },
                    _ => {},
                }
                false
            },
        }
    }

    /// Handle a keypress with its modifiers. Returns true when the panel
    /// should close and save.
    pub fn on_key_with(&mut self, key: Key, mods: Mods) -> (close: bool)
        ensures
            (final(self)@, close) == on_key_spec(old(self)@, key, mods),
    {
        let editing = self.editing.is_some();
        let close = self.act(key, mods);
        // A field that has just opened puts its caret at the end of whatever
        // it was prefilled with. One check here covers every way to open one.
        if !editing && self.editing.is_some() {
            self.caret = usize::MAX;
        }
        close
    }

    /// Handle a keypress. Returns true when the panel should close and save.
    pub fn on_key(&mut self, key: Key) -> (close: bool)
        ensures
            (final(self)@, close) == on_key_spec(old(self)@, key, Mods { ctrl: false, alt: false }),
    {
        self.on_key_with(key, Mods { ctrl: false, alt: false })
    }
}

} // verus!
