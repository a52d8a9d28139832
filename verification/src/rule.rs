//! Routing rules: which urls a rule matches, where it sends them, and the
//! file the rules are kept in, the same subset of TOML the channels file
//! uses with `key = ["a", "b"]` lists as well.
use vstd::prelude::*;

use crate::channel;
use crate::channel::{content, unquoted};
use crate::crawl::join;
use crate::parse;
use crate::seqs;
use crate::text;
use crate::utils;
use crate::utils::strings;

verus! {

/// One routing rule. Every condition that is set has to match, so a rule
/// with both `extensions` and `domains` means "this kind of file, from
/// there".
#[derive(Debug, Clone, Default, PartialEq)]
pub struct Rule {
    pub extensions: Vec<String>,
    pub domains: Vec<String>,
    /// A url pattern: each `*` covers part of one path segment, and what
    /// it covers fills `$1`, `$2` … in the queue and the directory.
    pub pattern: Option<String>,
    /// Whole bytes. Only checkable once the backend reports a total, so a
    /// rule that sets it routes the download after it starts rather than on
    /// the way in.
    pub min_size: Option<u64>,
    pub queue: Option<String>,
    pub directory: Option<String>,
    pub backend: Option<String>,
}

/// A rule with its texts as character sequences.
#[verifier::ext_equal]
pub struct RuleView {
    pub extensions: Seq<Seq<char>>,
    pub domains: Seq<Seq<char>>,
    pub pattern: Option<Seq<char>>,
    pub min_size: Option<u64>,
    pub queue: Option<Seq<char>>,
    pub directory: Option<Seq<char>>,
    pub backend: Option<Seq<char>>,
}

/// An optional text by its characters.
pub open spec fn opt_view(o: Option<String>) -> Option<Seq<char>> {
    match o {
        Some(s) => Some(s@),
        None => None,
    }
}

impl View for Rule {
    type V = RuleView;

    open spec fn view(&self) -> RuleView {
        RuleView {
            extensions: strings(self.extensions@),
            domains: strings(self.domains@),
            pattern: opt_view(self.pattern),
            min_size: self.min_size,
            queue: opt_view(self.queue),
            directory: opt_view(self.directory),
            backend: opt_view(self.backend),
        }
    }
}

/// A rule that sets nothing.
pub open spec fn empty_rule() -> RuleView {
    RuleView {
        extensions: seq![],
        domains: seq![],
        pattern: None,
        min_size: None,
        queue: None,
        directory: None,
        backend: None,
    }
}

/// How many fields a rule has: extensions, domains, pattern, min_size,
/// queue, directory and backend, in the order the panel shows them.
pub const FIELDS: usize = 7;

/// The name of field `i`, as the panel and the file spell it.
pub open spec fn field_name(i: int) -> Seq<char> {
    if i == 0 {
        "extensions"@
    } else if i == 1 {
        "domains"@
    } else if i == 2 {
        "pattern"@
    } else if i == 3 {
        "min_size"@
    } else if i == 4 {
        "queue"@
    } else if i == 5 {
        "directory"@
    } else {
        "backend"@
    }
}

/// The name of field `i`.
pub fn field(i: usize) -> (r: &'static str)
    ensures
        r@ == field_name(i as int),
{
    if i == 0 {
        "extensions"
    } else if i == 1 {
        "domains"
    } else if i == 2 {
        "pattern"
    } else if i == 3 {
        "min_size"
    } else if i == 4 {
        "queue"
    } else if i == 5 {
        "directory"
    } else {
        "backend"
    }
}

/// An optional text, empty when unset.
pub open spec fn or_empty(o: Option<Seq<char>>) -> Seq<char> {
    match o {
        Some(s) => s,
        None => seq![],
    }
}

/// One field as text, for the panel and for the file.
pub open spec fn get_of(r: RuleView, i: int) -> Seq<char> {
    if i == 0 {
        join(r.extensions, ", "@)
    } else if i == 1 {
        join(r.domains, ", "@)
    } else if i == 2 {
        or_empty(r.pattern)
    } else if i == 3 {
        match r.min_size {
            Some(n) => parse::human_of(n as nat),
            None => seq![],
        }
    } else if i == 4 {
        or_empty(r.queue)
    } else if i == 5 {
        or_empty(r.directory)
    } else {
        or_empty(r.backend)
    }
}

/// The non-empty texts of a list, in order.
pub open spec fn nonempty(v: Seq<Seq<char>>) -> Seq<Seq<char>>
    decreases v.len(),
{
    if v.len() == 0 {
        v
    } else if v.last().len() > 0 {
        nonempty(v.drop_last()).push(v.last())
    } else {
        nonempty(v.drop_last())
    }
}

/// A comma-separated list as the panel reads it: each item trimmed, its
/// leading dots dropped, lowercased; empty items dropped.
pub open spec fn listed_of(value: Seq<char>) -> Seq<Seq<char>> {
    nonempty(
        seqs::split(seqs::trim(value), ',').map_values(
            |p: Seq<char>| text::lowercase(seqs::strip_start(seqs::trim(p), seq!['.'])),
        ),
    )
}

/// A text, or nothing when it is empty.
pub open spec fn some_of(v: Seq<char>) -> Option<Seq<char>> {
    if v.len() > 0 {
        Some(v)
    } else {
        None
    }
}

/// One field set from text. Empty clears it, which is how a condition or a
/// destination is taken back off a rule.
pub open spec fn set_of(r: RuleView, i: int, value: Seq<char>) -> RuleView {
    let v = seqs::trim(value);
    if i == 0 {
        RuleView { extensions: listed_of(v), ..r }
    } else if i == 1 {
        RuleView { domains: listed_of(v), ..r }
    } else if i == 2 {
        RuleView { pattern: some_of(v), ..r }
    } else if i == 3 {
        RuleView { min_size: parse::size_of(v), ..r }
    } else if i == 4 {
        RuleView { queue: some_of(v), ..r }
    } else if i == 5 {
        RuleView { directory: some_of(v), ..r }
    } else {
        RuleView { backend: some_of(v), ..r }
    }
}

/// Whether the url alone satisfies the rule. A size-only rule matches every
/// url and waits for the total.
pub open spec fn matches_of(r: RuleView, url: Seq<char>) -> bool {
    if r.extensions.len() == 0 && r.domains.len() == 0 && r.pattern is None {
        r.min_size is Some
    } else {
        let u = text::lowercase(url);
        let path = seqs::before_any(u, seq!['?', '#']);
        let ext_ok = r.extensions.len() == 0 || exists|i: int|
            0 <= i < r.extensions.len() && seqs::ends_with(path, seq!['.'] + #[trigger] r.extensions[i]);
        let domain_ok = r.domains.len() == 0 || exists|i: int|
            0 <= i < r.domains.len() && seqs::contains(u, #[trigger] r.domains[i]);
        let pattern_ok = match r.pattern {
            Some(p) => capture_of(p, url) is Some,
            None => true,
        };
        ext_ok && domain_ok && pattern_ok
    }
}

/// The parts of a text joined with a separator.
pub fn join_texts(parts: &[Vec<char>], sep: &[char]) -> (r: Vec<char>)
    ensures
        r@ == join(seqs::views(parts@), sep@),
{
    let ghost pv = seqs::views(parts@);
    let mut r: Vec<char> = Vec::new();
    let mut i: usize = 0;
    proof {
        assert(pv.take(0) =~= Seq::<Seq<char>>::empty());
    }
    while i < parts.len()
        invariant
            i <= parts@.len(),
            pv == seqs::views(parts@),
            r@ == join(pv.take(i as int), sep@),
        decreases parts@.len() - i,
    {
        if i > 0 {
            text::push_all(&mut r, sep);
        }
        text::push_all(&mut r, parts[i].as_slice());
        proof {
            assert(pv.take(i + 1).drop_last() =~= pv.take(i as int));
            assert(pv.take(i + 1).last() == parts@[i as int]@);
            if i == 0 {
                assert(pv.take(1) =~= seq![parts@[0]@]);
            }
        }
        i += 1;
    }
    proof {
        assert(pv.take(parts@.len() as int) =~= pv);
    }
    r
}

/// The characters of every string.
pub fn chars_all(v: &[String]) -> (r: Vec<Vec<char>>)
    ensures
        seqs::views(r@) == strings(v@),
{
    let mut r: Vec<Vec<char>> = Vec::new();
    let mut i: usize = 0;
    while i < v.len()
        invariant
            i <= v@.len(),
            seqs::views(r@) == strings(v@).take(i as int),
        decreases v@.len() - i,
    {
        let ghost before = seqs::views(r@);
        r.push(text::chars_of(v[i].as_str()));
        proof {
            assert(seqs::views(r@) =~= before.push(v@[i as int]@));
            assert(strings(v@).take(i + 1) =~= strings(v@).take(i as int).push(v@[i as int]@));
        }
        i += 1;
    }
    proof {
        assert(strings(v@).take(v@.len() as int) =~= strings(v@));
    }
    r
}

/// An optional text as a string, empty when unset.
fn text_or_empty(o: &Option<String>) -> (r: String)
    ensures
        r@ == or_empty(opt_view(*o)),
{
    match o {
        Some(s) => s.clone(),
        None => String::new(),
    }
}

/// A list as the panel reads it.
pub fn listed(value: &[char]) -> (r: Vec<String>)
    ensures
        strings(r@) == listed_of(value@),
{
    let parts = text::split(text::trim(value).as_slice(), ',');
    let ghost pv = seqs::views(parts@);
    let ghost mapped = pv.map_values(
        |p: Seq<char>| text::lowercase(seqs::strip_start(seqs::trim(p), seq!['.'])),
    );
    let mut r: Vec<String> = Vec::new();
    let mut i: usize = 0;
    proof {
        assert(mapped.take(0) =~= Seq::<Seq<char>>::empty());
    }
    while i < parts.len()
        invariant
            i <= parts@.len(),
            pv == seqs::views(parts@),
            mapped == pv.map_values(
                |p: Seq<char>| text::lowercase(seqs::strip_start(seqs::trim(p), seq!['.'])),
            ),
            strings(r@) == nonempty(mapped.take(i as int)),
        decreases parts@.len() - i,
    {
        let item = text::lower(
            text::strip_start(text::trim(parts[i].as_slice()).as_slice(), text::one('.').as_slice()).as_slice(),
        );
        proof {
            assert(mapped[i as int] == item@);
            assert(mapped.take(i + 1).drop_last() =~= mapped.take(i as int));
            assert(mapped.take(i + 1).last() == item@);
        }
        if item.len() > 0 {
            let ghost before = strings(r@);
            r.push(text::string_of(item.as_slice()));
            proof {
                assert(strings(r@) =~= before.push(item@));
            }
        }
        i += 1;
    }
    proof {
        assert(mapped.take(parts@.len() as int) =~= mapped);
    }
    r
}

impl Rule {
    /// A rule that sets nothing yet.
    pub fn empty() -> (r: Rule)
        ensures
            r@ == empty_rule(),
    {
        let r = Rule {
            extensions: Vec::new(),
            domains: Vec::new(),
            pattern: None,
            min_size: None,
            queue: None,
            directory: None,
            backend: None,
        };
        proof {
            assert(r@ =~= empty_rule());
        }
        r
    }
}

impl Rule {
    /// One field as text, for the panel and for the file.
    pub fn get(&self, field: usize) -> (r: String)
        ensures
            r@ == get_of(self@, field as int),
    {
        if field == 0 {
            let v = join_texts(chars_all(self.extensions.as_slice()).as_slice(), text::chars_of(", ").as_slice());
            text::string_of(v.as_slice())
        } else if field == 1 {
            let v = join_texts(chars_all(self.domains.as_slice()).as_slice(), text::chars_of(", ").as_slice());
            text::string_of(v.as_slice())
        } else if field == 2 {
            text_or_empty(&self.pattern)
        } else if field == 3 {
            match self.min_size {
                Some(n) => parse::human(n),
                None => String::new(),
            }
        } else if field == 4 {
            text_or_empty(&self.queue)
        } else if field == 5 {
            text_or_empty(&self.directory)
        } else {
            text_or_empty(&self.backend)
        }
    }

    /// One field from text. Empty clears it, which is how a condition or a
    /// destination is taken back off a rule.
    pub fn set(&mut self, field: usize, value: &str)
        ensures
            final(self)@ == set_of(old(self)@, field as int, value@),
    {
        let v = text::trim(text::chars_of(value).as_slice());
        let text_value = if v.len() > 0 {
            Some(text::string_of(v.as_slice()))
        } else {
            None
        };
        if field == 0 {
            self.extensions = listed(v.as_slice());
        } else if field == 1 {
            self.domains = listed(v.as_slice());
        } else if field == 2 {
            self.pattern = text_value;
        } else if field == 3 {
            self.min_size = parse::bytes(text::string_of(v.as_slice()).as_str());
        } else if field == 4 {
            self.queue = text_value;
        } else if field == 5 {
            self.directory = text_value;
        } else {
            self.backend = text_value;
        }
        proof {
            assert(seqs::trim(seqs::trim(value@)) == seqs::trim(value@)) by {
                lemma_trim_twice(value@);
            }
        }
    }
}

/// Trimming twice is trimming once.
pub proof fn lemma_trim_twice(s: Seq<char>)
    ensures
        seqs::trim(seqs::trim(s)) == seqs::trim(s),
{
    let t = seqs::trim(s);
    seqs::lemma_trim_start_len(s);
    lemma_trim_end_shape(seqs::trim_start(s));
    if t.len() > 0 {
        seqs::lemma_trim_ends(t);
    }
}

/// What trimming the end leaves: a front of the text that ends in no
/// whitespace and starts where the text does.
proof fn lemma_trim_end_shape(s: Seq<char>)
    ensures
        seqs::trim_end(s) == s.take(seqs::trim_end(s).len() as int),
        seqs::trim_end(s).len() <= s.len(),
        seqs::trim_end(s).len() > 0 ==> !seqs::is_ws(seqs::trim_end(s).last()),
    decreases s.len(),
{
    if s.len() > 0 && seqs::is_ws(s.last()) {
        lemma_trim_end_shape(s.drop_last());
        assert(s.drop_last().take(seqs::trim_end(s).len() as int) =~= s.take(seqs::trim_end(s).len() as int));
    } else {
        assert(s.take(s.len() as int) =~= s);
    }
}

// ---------------------------------------------------------------------------
// Matching and describing
// ---------------------------------------------------------------------------

/// What a rule matches, for one line of display.
pub open spec fn what_parts(r: RuleView) -> Seq<Seq<char>> {
    (if r.extensions.len() > 0 {
        seq![join(r.extensions, ", "@)]
    } else {
        seq![]
    }) + (if r.domains.len() > 0 {
        seq![join(r.domains, ", "@)]
    } else {
        seq![]
    }) + (match r.pattern {
        Some(p) => seq![p],
        None => seq![],
    }) + (match r.min_size {
        Some(n) => seq!["over "@ + parse::human_of(n as nat)],
        None => seq![],
    })
}

/// Where a rule sends what it matches, for one line of display.
pub open spec fn to_parts(r: RuleView) -> Seq<Seq<char>> {
    let q = match r.queue {
        Some(q) => seq!["queue "@ + q],
        None => seq![],
    };
    let d = match r.directory {
        Some(d) => seq![d],
        None => seq![],
    };
    let b = match r.backend {
        Some(b) => seq![b],
        None => seq![],
    };
    q + d + b
}

impl Rule {
    /// What the rule matches and where it sends it, for one line of display.
    pub fn summary(&self) -> (r: (String, String))
        ensures
            r.0@ == join(what_parts(self@), " + "@),
            r.1@ == join(to_parts(self@), " · "@),
    {
        let mut what: Vec<Vec<char>> = Vec::new();
        if self.extensions.len() > 0 {
            what.push(text::chars_of(self.get(0).as_str()));
        }
        if self.domains.len() > 0 {
            what.push(text::chars_of(self.get(1).as_str()));
        }
        match &self.pattern {
            Some(p) => what.push(text::chars_of(p.as_str())),
            None => {},
        }
        match self.min_size {
            Some(n) => {
                let mut v = text::chars_of("over ");
                text::push_all(&mut v, text::chars_of(parse::human(n).as_str()).as_slice());
                what.push(v);
            },
            None => {},
        }
        proof {
            assert(seqs::views(what@) =~= what_parts(self@));
        }
        let mut to: Vec<Vec<char>> = Vec::new();
        match &self.queue {
            Some(q) => {
                let mut v = text::chars_of("queue ");
                text::push_all(&mut v, text::chars_of(q.as_str()).as_slice());
                to.push(v);
            },
            None => {},
        }
        match &self.directory {
            Some(d) => to.push(text::chars_of(d.as_str())),
            None => {},
        }
        match &self.backend {
            Some(b) => to.push(text::chars_of(b.as_str())),
            None => {},
        }
        proof {
            assert(seqs::views(to@) =~= to_parts(self@));
        }
        let a = join_texts(what.as_slice(), text::chars_of(" + ").as_slice());
        let b = join_texts(to.as_slice(), text::chars_of(" · ").as_slice());
        (text::string_of(a.as_slice()), text::string_of(b.as_slice()))
    }

    /// Does the url alone satisfy this rule? A `min_size` is not answered
    /// here; see `wants_size`.
    pub fn matches(&self, url: &str) -> (r: bool)
        ensures
            r == matches_of(self@, url@),
    {
        if self.extensions.len() == 0 && self.domains.len() == 0 && self.pattern.is_none() {
            return self.min_size.is_some();
        }
        let u = text::lower(text::chars_of(url).as_slice());
        let path = text::before_any(u.as_slice(), text::two('?', '#').as_slice());
        let ghost exts = strings(self.extensions@);
        let mut ext_ok = self.extensions.len() == 0;
        let mut i: usize = 0;
        while i < self.extensions.len()
            invariant
                i <= self.extensions@.len(),
                exts == strings(self.extensions@),
                ext_ok == (exts.len() == 0 || exists|j: int| 0 <= j < i && seqs::ends_with(path@, seq!['.'] + #[trigger] exts[j])),
            decreases self.extensions@.len() - i,
        {
            let mut want = text::one('.');
            text::push_all(&mut want, text::chars_of(self.extensions[i].as_str()).as_slice());
            if text::ends_with(path.as_slice(), want.as_slice()) {
                proof {
                    assert(want@ =~= seq!['.'] + exts[i as int]);
                }
                ext_ok = true;
            } else {
                proof {
                    assert(want@ =~= seq!['.'] + exts[i as int]);
                }
            }
            i += 1;
        }
        let ghost doms = strings(self.domains@);
        let mut domain_ok = self.domains.len() == 0;
        let mut k: usize = 0;
        while k < self.domains.len()
            invariant
                k <= self.domains@.len(),
                doms == strings(self.domains@),
                domain_ok == (doms.len() == 0 || exists|j: int| 0 <= j < k && seqs::contains(u@, #[trigger] doms[j])),
            decreases self.domains@.len() - k,
        {
            if text::contains(u.as_slice(), text::chars_of(self.domains[k].as_str()).as_slice()) {
                proof {
                    assert(doms[k as int] == self.domains@[k as int]@);
                }
                domain_ok = true;
            } else {
                proof {
                    assert(doms[k as int] == self.domains@[k as int]@);
                }
            }
            k += 1;
        }
        let pattern_ok = match &self.pattern {
            Some(p) => capture(p.as_str(), url).is_some(),
            None => true,
        };
        ext_ok && domain_ok && pattern_ok
    }

    /// What the rule's pattern covers in the url, for its destinations;
    /// nothing to fill with when it has no pattern, and `None` when the
    /// pattern is not in the url.
    pub fn captures(&self, url: &str) -> (r: Option<Vec<String>>)
        ensures
            match r {
                Some(v) => rule_captures(self@, url@) == Some(utils::strings(v@)),
                None => rule_captures(self@, url@) is None,
            },
    {
        match &self.pattern {
            Some(p) => capture(p.as_str(), url),
            None => {
                let v: Vec<String> = Vec::new();
                proof {
                    assert(utils::strings(v@) =~= Seq::<Seq<char>>::empty());
                }
                Some(v)
            },
        }
    }

    /// A destination of this rule with what its pattern caught filled in.
    pub fn fill(&self, template: &str, caught: &[String]) -> (r: Option<String>)
        ensures
            match r {
                Some(s) => fill_of(template@, utils::strings(caught@)) == Some(s@),
                None => fill_of(template@, utils::strings(caught@)) is None,
            },
    {
        fill_text(template, caught)
    }

    /// Whether a download of `total` bytes is big enough for this rule.
    pub fn wants_size(&self, total: u64) -> (r: bool)
        ensures
            r == match self.min_size {
                Some(min) => total >= min,
                None => true,
            },
    {
        match self.min_size {
            Some(min) => total >= min,
            None => true,
        }
    }
}

// ---------------------------------------------------------------------------
// The rules file
// ---------------------------------------------------------------------------

/// The header that starts a rule.
pub open spec fn rule_header() -> Seq<char> {
    seq!['[', '[', 'r', 'u', 'l', 'e', ']', ']']
}

/// A list value: `["a", "b"]`, or bare `a, b`; each item unquoted, empty
/// ones dropped.
pub open spec fn list_of(value: Seq<char>) -> Seq<Seq<char>> {
    let inner = seqs::strip_end(seqs::strip_start(seqs::trim(value), seq!['[']), seq![']']);
    nonempty(seqs::split(inner, ',').map_values(|p: Seq<char>| unquoted(p)))
}

/// Extensions as the file gives them: without leading dots, lowercased.
pub open spec fn exts_of(items: Seq<Seq<char>>) -> Seq<Seq<char>> {
    items.map_values(|e: Seq<char>| text::lowercase(seqs::strip_start(e, seq!['.'])))
}

/// A rule with the field `key` names set from its (trimmed) value in the
/// file; `None` for a key that is not a field.
pub open spec fn keyed(last: RuleView, key: Seq<char>, v: Seq<char>) -> Option<RuleView> {
    if key == "extensions"@ {
        Some(RuleView { extensions: exts_of(list_of(v)), ..last })
    } else if key == "domains"@ {
        Some(RuleView { domains: list_of(v).map_values(|d: Seq<char>| text::lowercase(d)), ..last })
    } else if key == "pattern"@ {
        Some(RuleView { pattern: some_of(unquoted(v)), ..last })
    } else if key == "min_size"@ {
        Some(RuleView { min_size: parse::size_of(unquoted(v)), ..last })
    } else if key == "queue"@ {
        Some(RuleView { queue: some_of(unquoted(v)), ..last })
    } else if key == "directory"@ {
        Some(RuleView { directory: some_of(unquoted(v)), ..last })
    } else if key == "backend"@ {
        Some(RuleView { backend: some_of(unquoted(v)), ..last })
    } else {
        None
    }
}

/// One line read into the rules so far: a header opens a new rule, and a
/// `key = value` line sets a field of the last one. Anything before the
/// first header, or without a `=`, is not ours.
pub open spec fn rule_step(rs: Seq<RuleView>, line: Seq<char>) -> Seq<RuleView> {
    let l = content(line);
    if l == rule_header() {
        rs.push(empty_rule())
    } else if rs.len() == 0 {
        rs
    } else {
        match seqs::split_once(l, seq!['=']) {
            None => rs,
            Some((k, v)) => {
                match keyed(rs.last(), seqs::trim(k), seqs::trim(v)) {
                    Some(r) => rs.update(rs.len() - 1, r),
                    None => rs,
                }
            },
        }
    }
}

/// Lines read one after the other, starting from `rs`.
pub open spec fn rules_from(rs: Seq<RuleView>, ls: Seq<Seq<char>>) -> Seq<RuleView>
    decreases ls.len(),
{
    if ls.len() == 0 {
        rs
    } else {
        rule_step(rules_from(rs, ls.drop_last()), ls.last())
    }
}

/// A rule decides something: a queue, a directory or a backend.
pub open spec fn decides(r: RuleView) -> bool {
    r.queue is Some || r.directory is Some || r.backend is Some
}

/// The rules that decide something; one that decides nothing would silently
/// swallow its matches.
pub open spec fn deciding(rs: Seq<RuleView>) -> Seq<RuleView>
    decreases rs.len(),
{
    if rs.len() == 0 {
        rs
    } else if decides(rs.last()) {
        deciding(rs.drop_last()).push(rs.last())
    } else {
        deciding(rs.drop_last())
    }
}

/// The rules a file holds.
pub open spec fn rules_of(text: Seq<char>) -> Seq<RuleView> {
    deciding(rules_from(seq![], seqs::lines(text)))
}

/// The rules by their views.
pub open spec fn rule_views(v: Seq<Rule>) -> Seq<RuleView> {
    v.map_values(|r: Rule| r@)
}

/// A copy of the rule.
fn copy_rule(r: &Rule) -> (c: Rule)
    ensures
        c@ == r@,
{
    let mut ext: Vec<String> = Vec::new();
    let mut i: usize = 0;
    while i < r.extensions.len()
        invariant
            i <= r.extensions@.len(),
            strings(ext@) == strings(r.extensions@).take(i as int),
        decreases r.extensions@.len() - i,
    {
        let ghost before = strings(ext@);
        ext.push(r.extensions[i].clone());
        proof {
            assert(strings(ext@) =~= before.push(r.extensions@[i as int]@));
            assert(strings(r.extensions@).take(i + 1) =~= strings(r.extensions@).take(i as int).push(
                r.extensions@[i as int]@,
            ));
        }
        i += 1;
    }
    let mut dom: Vec<String> = Vec::new();
    let mut k: usize = 0;
    while k < r.domains.len()
        invariant
            k <= r.domains@.len(),
            strings(dom@) == strings(r.domains@).take(k as int),
        decreases r.domains@.len() - k,
    {
        let ghost before = strings(dom@);
        dom.push(r.domains[k].clone());
        proof {
            assert(strings(dom@) =~= before.push(r.domains@[k as int]@));
            assert(strings(r.domains@).take(k + 1) =~= strings(r.domains@).take(k as int).push(
                r.domains@[k as int]@,
            ));
        }
        k += 1;
    }
    proof {
        assert(strings(r.extensions@).take(r.extensions@.len() as int) =~= strings(r.extensions@));
        assert(strings(r.domains@).take(r.domains@.len() as int) =~= strings(r.domains@));
    }
    let copy = |o: &Option<String>| -> (c: Option<String>)
        ensures
            opt_view(c) == opt_view(*o),
        {
            match o {
                Some(s) => Some(s.clone()),
                None => None,
            }
        };
    Rule {
        extensions: ext,
        domains: dom,
        pattern: copy(&r.pattern),
        min_size: r.min_size,
        queue: copy(&r.queue),
        directory: copy(&r.directory),
        backend: copy(&r.backend),
    }
}

/// A list value's items.
fn list(value: &[char]) -> (r: Vec<Vec<char>>)
    ensures
        seqs::views(r@) == list_of(value@),
{
    let inner = text::strip_end(
        text::strip_start(text::trim(value).as_slice(), text::one('[').as_slice()).as_slice(),
        text::one(']').as_slice(),
    );
    let parts = text::split(inner.as_slice(), ',');
    let ghost pv = seqs::views(parts@);
    let ghost mapped = pv.map_values(|p: Seq<char>| unquoted(p));
    let mut r: Vec<Vec<char>> = Vec::new();
    let mut i: usize = 0;
    proof {
        assert(mapped.take(0) =~= Seq::<Seq<char>>::empty());
    }
    while i < parts.len()
        invariant
            i <= parts@.len(),
            pv == seqs::views(parts@),
            mapped == pv.map_values(|p: Seq<char>| unquoted(p)),
            seqs::views(r@) == nonempty(mapped.take(i as int)),
        decreases parts@.len() - i,
    {
        let item = text::strip(text::trim(parts[i].as_slice()).as_slice(), text::two('"', '\'').as_slice());
        proof {
            assert(mapped[i as int] == item@);
            assert(mapped.take(i + 1).drop_last() =~= mapped.take(i as int));
            assert(mapped.take(i + 1).last() == item@);
        }
        if item.len() > 0 {
            let ghost before = seqs::views(r@);
            r.push(item);
            proof {
                assert(seqs::views(r@) =~= before.push(mapped[i as int]));
            }
        }
        i += 1;
    }
    proof {
        assert(mapped.take(parts@.len() as int) =~= mapped);
    }
    r
}

/// A value without its whitespace and quotes, as a string.
fn unquote(value: &[char]) -> (r: Option<String>)
    ensures
        opt_view(r) == some_of(unquoted(value@)),
{
    let v = text::strip(text::trim(value).as_slice(), text::two('"', '\'').as_slice());
    if v.len() > 0 {
        Some(text::string_of(v.as_slice()))
    } else {
        None
    }
}

/// Sets the field `k` names from its value in the file; false, and the rule
/// unchanged, for a key that is not a field.
#[verifier::spinoff_prover]
fn set_keyed(r: &mut Rule, k: &[char], v: &[char]) -> (set: bool)
    ensures
        match keyed(old(r)@, k@, v@) {
            Some(nr) => set && final(r)@ == nr,
            None => !set && final(r)@ == old(r)@,
        },
{
    if text::same(k, text::chars_of("extensions").as_slice()) {
        let items = list(v);
        let mut exts: Vec<String> = Vec::new();
        let mut i: usize = 0;
        while i < items.len()
            invariant
                i <= items@.len(),
                strings(exts@) == exts_of(seqs::views(items@)).take(i as int),
            decreases items@.len() - i,
        {
            let e = text::lower(text::strip_start(items[i].as_slice(), text::one('.').as_slice()).as_slice());
            let ghost before = strings(exts@);
            exts.push(text::string_of(e.as_slice()));
            proof {
                assert(strings(exts@) =~= before.push(e@));
                assert(exts_of(seqs::views(items@)).take(i + 1) =~= exts_of(seqs::views(items@)).take(
                    i as int,
                ).push(e@));
            }
            i += 1;
        }
        proof {
            assert(exts_of(seqs::views(items@)).take(items@.len() as int) =~= exts_of(seqs::views(items@)));
        }
        r.extensions = exts;
    } else if text::same(k, text::chars_of("domains").as_slice()) {
        let items = list(v);
        let ghost want = seqs::views(items@).map_values(|d: Seq<char>| text::lowercase(d));
        let mut doms: Vec<String> = Vec::new();
        let mut i: usize = 0;
        while i < items.len()
            invariant
                i <= items@.len(),
                want == seqs::views(items@).map_values(|d: Seq<char>| text::lowercase(d)),
                strings(doms@) == want.take(i as int),
            decreases items@.len() - i,
        {
            let d = text::lower(items[i].as_slice());
            let ghost before = strings(doms@);
            doms.push(text::string_of(d.as_slice()));
            proof {
                assert(strings(doms@) =~= before.push(d@));
                assert(want.take(i + 1) =~= want.take(i as int).push(d@));
            }
            i += 1;
        }
        proof {
            assert(want.take(items@.len() as int) =~= want);
        }
        r.domains = doms;
    } else if text::same(k, text::chars_of("pattern").as_slice()) {
        r.pattern = unquote(v);
    } else if text::same(k, text::chars_of("min_size").as_slice()) {
        let u = text::strip(text::trim(v).as_slice(), text::two('"', '\'').as_slice());
        r.min_size = parse::bytes(text::string_of(u.as_slice()).as_str());
    } else if text::same(k, text::chars_of("queue").as_slice()) {
        r.queue = unquote(v);
    } else if text::same(k, text::chars_of("directory").as_slice()) {
        r.directory = unquote(v);
    } else if text::same(k, text::chars_of("backend").as_slice()) {
        r.backend = unquote(v);
    } else {
        return false;
    }
    true
}

/// Reads one line into the rules so far.
fn read_line(rules: &mut Vec<Rule>, line: &[char])
    ensures
        rule_views(final(rules)@) == rule_step(rule_views(old(rules)@), line@),
{
    let l = text::trim(text::before_any(line, text::one('#').as_slice()).as_slice());
    let header = text::chars_of("[[rule]]");
    proof {
        reveal_strlit("[[rule]]");
        assert(header@ =~= rule_header());
    }
    if text::same(l.as_slice(), header.as_slice()) {
        let fresh = Rule {
            extensions: Vec::new(),
            domains: Vec::new(),
            pattern: None,
            min_size: None,
            queue: None,
            directory: None,
            backend: None,
        };
        rules.push(fresh);
        proof {
            assert(fresh@ =~= empty_rule());
            assert(rule_views(rules@) =~= rule_views(old(rules)@).push(empty_rule()));
        }
        return;
    }
    if rules.len() == 0 {
        return;
    }
    let (k, v) = match text::split_once(l.as_slice(), text::one('=').as_slice()) {
        Some(p) => p,
        None => {
            return;
        },
    };
    let key = text::trim(k.as_slice());
    let v = text::trim(v.as_slice());
    let n = rules.len() - 1;
    let mut r = copy_rule(&rules[n]);
    if !set_keyed(&mut r, key.as_slice(), v.as_slice()) {
        return;
    }
    rules.set(n, r);
    proof {
        assert(rule_views(rules@) =~= rule_views(old(rules)@).update(n as int, r@));
    }
}

/// The rules the lines of a file build, dropped or not.
fn read_all(ls: &Vec<Vec<char>>) -> (r: Vec<Rule>)
    ensures
        rule_views(r@) == rules_from(seq![], seqs::views(ls@)),
{
    let ghost lv = seqs::views(ls@);
    let mut all: Vec<Rule> = Vec::new();
    let mut i: usize = 0;
    proof {
        assert(lv.take(0) =~= Seq::<Seq<char>>::empty());
        assert(rule_views(all@) =~= Seq::<RuleView>::empty());
    }
    while i < ls.len()
        invariant
            i <= ls@.len(),
            lv == seqs::views(ls@),
            rule_views(all@) == rules_from(seq![], lv.take(i as int)),
        decreases ls@.len() - i,
    {
        read_line(&mut all, ls[i].as_slice());
        proof {
            assert(lv.take(i + 1).drop_last() =~= lv.take(i as int));
            assert(lv.take(i + 1).last() == ls@[i as int]@);
        }
        i += 1;
    }
    proof {
        assert(lv.take(ls@.len() as int) =~= lv);
    }
    all
}

/// The rules that decide something.
fn keep_deciding(all: &Vec<Rule>) -> (r: Vec<Rule>)
    ensures
        rule_views(r@) == deciding(rule_views(all@)),
{
    let ghost rs = rule_views(all@);
    let mut kept: Vec<Rule> = Vec::new();
    let mut j: usize = 0;
    proof {
        assert(rs.take(0) =~= Seq::<RuleView>::empty());
        assert(rule_views(kept@) =~= Seq::<RuleView>::empty());
    }
    while j < all.len()
        invariant
            j <= all@.len(),
            rs == rule_views(all@),
            rule_views(kept@) == deciding(rs.take(j as int)),
        decreases all@.len() - j,
    {
        let r = &all[j];
        proof {
            assert(rs.take(j + 1).drop_last() =~= rs.take(j as int));
            assert(rs.take(j + 1).last() == rs[j as int]);
        }
        if r.queue.is_some() || r.directory.is_some() || r.backend.is_some() {
            let c = copy_rule(r);
            let ghost before = rule_views(kept@);
            kept.push(c);
            proof {
                assert(rule_views(kept@) =~= before.push(rs[j as int]));
            }
        }
        j += 1;
    }
    proof {
        assert(rs.take(all@.len() as int) =~= rs);
    }
    kept
}

/// The rules in `text`, in the subset of TOML the format needs: `[[rule]]`
/// headers, `key = "value"` and `key = ["a", "b"]`, `#` comments. A rule
/// that decides nothing is dropped.
pub fn parse(text: &str) -> (r: Vec<Rule>)
    ensures
        rule_views(r@) == rules_of(text@),
{
    let ls = text::lines(text::chars_of(text).as_slice());
    let all = read_all(&ls);
    keep_deciding(&all)
}

/// A comma-separated value as a list of quoted items, `"a", "b"`.
pub open spec fn quoted_list(value: Seq<char>) -> Seq<char> {
    join(
        seqs::split(value, ',').map_values(|v: Seq<char>| seq!['"'] + seqs::trim(v) + seq!['"']),
        ", "@,
    )
}

/// The file's line for field `i` of a rule: none when the field is empty,
/// lists in brackets, everything else as one quoted string.
pub open spec fn field_line(r: RuleView, i: int) -> Seq<Seq<char>> {
    let value = get_of(r, i);
    if value.len() == 0 {
        seq![]
    } else if i <= 1 {
        seq![field_name(i) + " = ["@ + quoted_list(value) + "]"@]
    } else {
        seq![field_name(i) + " = \""@ + value + "\""@]
    }
}

/// A rule's lines: a blank line, the header, then its fields that are set.
pub open spec fn rule_block(r: RuleView) -> Seq<Seq<char>> {
    seq![seq![], rule_header()] + field_line(r, 0) + field_line(r, 1) + field_line(r, 2) + field_line(r, 3)
        + field_line(r, 4) + field_line(r, 5) + field_line(r, 6)
}

/// The file's first line.
pub open spec fn rules_banner() -> Seq<char> {
    "# muxget routing rules"@
}

/// The lines of the file for these rules.
pub open spec fn rule_lines(rs: Seq<RuleView>) -> Seq<Seq<char>>
    decreases rs.len(),
{
    if rs.len() == 0 {
        seq![rules_banner()]
    } else {
        rule_lines(rs.drop_last()) + rule_block(rs.last())
    }
}

/// A comma-separated value as a list of quoted items.
fn quote_list(value: &[char]) -> (r: Vec<char>)
    ensures
        r@ == quoted_list(value@),
{
    let parts = text::split(value, ',');
    let ghost pv = seqs::views(parts@);
    let ghost q = pv.map_values(|v: Seq<char>| seq!['"'] + seqs::trim(v) + seq!['"']);
    let mut items: Vec<Vec<char>> = Vec::new();
    let mut i: usize = 0;
    while i < parts.len()
        invariant
            i <= parts@.len(),
            pv == seqs::views(parts@),
            q == pv.map_values(|v: Seq<char>| seq!['"'] + seqs::trim(v) + seq!['"']),
            seqs::views(items@) == q.take(i as int),
        decreases parts@.len() - i,
    {
        let mut item = text::one('"');
        text::push_all(&mut item, text::trim(parts[i].as_slice()).as_slice());
        item.push('"');
        let ghost before = seqs::views(items@);
        items.push(item);
        proof {
            assert(q[i as int] =~= item@);
            assert(seqs::views(items@) =~= before.push(item@));
            assert(q.take(i + 1) =~= q.take(i as int).push(q[i as int]));
        }
        i += 1;
    }
    proof {
        assert(q.take(parts@.len() as int) =~= q);
    }
    join_texts(items.as_slice(), text::chars_of(", ").as_slice())
}

/// Appends each line with its newline.
fn push_lines(out: &mut Vec<char>, lines: &Vec<Vec<char>>)
    ensures
        final(out)@ == old(out)@ + seqs::ended(seqs::views(lines@)),
{
    let ghost lv = seqs::views(lines@);
    let mut i: usize = 0;
    proof {
        assert(lv.take(0) =~= Seq::<Seq<char>>::empty());
        assert(seqs::ended(lv.take(0)) =~= Seq::<char>::empty());
        assert(out@ =~= old(out)@ + seqs::ended(lv.take(0)));
    }
    while i < lines.len()
        invariant
            i <= lines@.len(),
            lv == seqs::views(lines@),
            out@ == old(out)@ + seqs::ended(lv.take(i as int)),
        decreases lines@.len() - i,
    {
        text::push_all(out, lines[i].as_slice());
        out.push('\n');
        proof {
            seqs::lemma_ended_concat(lv.take(i as int), seq![lv[i as int]]);
            assert(lv.take(i + 1) =~= lv.take(i as int) + seq![lv[i as int]]);
            assert(seq![lv[i as int]].drop_first() =~= Seq::<Seq<char>>::empty());
            assert(seqs::ended(Seq::<Seq<char>>::empty()) =~= Seq::<char>::empty());
            assert(seq![lv[i as int]][0] == lv[i as int]);
            assert(seqs::ended(seq![lv[i as int]]) =~= lv[i as int] + seq!['\n']);
            assert(out@ =~= old(out)@ + seqs::ended(lv.take(i + 1)));
        }
        i += 1;
    }
    proof {
        assert(lv.take(lines@.len() as int) =~= lv);
    }
}

impl Rule {
    /// The file's line for one field, when that field is set.
    fn line_of_field(&self, i: usize) -> (r: Option<Vec<char>>)
        requires
            i < FIELDS,
        ensures
            match r {
                Some(l) => field_line(self@, i as int) == seq![l@],
                None => field_line(self@, i as int) == Seq::<Seq<char>>::empty(),
            },
    {
        let value = text::chars_of(self.get(i).as_str());
        if value.len() == 0 {
            return None;
        }
        let mut line = text::chars_of(field(i));
        if i <= 1 {
            text::push_all(&mut line, text::chars_of(" = [").as_slice());
            text::push_all(&mut line, quote_list(value.as_slice()).as_slice());
            line.push(']');
            proof {
                reveal_strlit("]");
                assert(line@ =~= field_name(i as int) + " = ["@ + quoted_list(value@) + "]"@);
            }
        } else {
            text::push_all(&mut line, text::chars_of(" = \"").as_slice());
            text::push_all(&mut line, value.as_slice());
            line.push('"');
            proof {
                reveal_strlit("\"");
                assert(line@ =~= field_name(i as int) + " = \""@ + value@ + "\""@);
            }
        }
        Some(line)
    }

    /// This rule's lines of the file.
    fn block(&self) -> (r: Vec<Vec<char>>)
        ensures
            seqs::views(r@) == rule_block(self@),
    {
        let mut ls: Vec<Vec<char>> = Vec::new();
        ls.push(Vec::new());
        let header = text::chars_of("[[rule]]");
        proof {
            reveal_strlit("[[rule]]");
            assert(header@ =~= rule_header());
        }
        ls.push(header);
        proof {
            assert(seqs::views(ls@) =~= seq![Seq::<char>::empty(), rule_header()]);
        }
        let mut i: usize = 0;
        while i < FIELDS
            invariant
                i <= FIELDS,
                seqs::views(ls@) == seq![Seq::<char>::empty(), rule_header()] + fields_upto(self@, i as int),
            decreases FIELDS - i,
        {
            let ghost before = seqs::views(ls@);
            match self.line_of_field(i) {
                Some(line) => {
                    ls.push(line);
                    proof {
                        assert(seqs::views(ls@) =~= before + field_line(self@, i as int));
                    }
                },
                None => {
                    proof {
                        assert(before + field_line(self@, i as int) =~= before);
                    }
                },
            }
            proof {
                assert(fields_upto(self@, i + 1) =~= fields_upto(self@, i as int) + field_line(self@, i as int));
            }
            i += 1;
        }
        proof {
            lemma_fields_all(self@);
        }
        ls
    }
}

/// All the fields' lines, one after another, after the header.
#[verifier::spinoff_prover]
#[verifier::rlimit(40)]
proof fn lemma_fields_all(r: RuleView)
    ensures
        seq![Seq::<char>::empty(), rule_header()] + fields_upto(r, 7) == rule_block(r),
{
    assert(fields_upto(r, 0) =~= Seq::<Seq<char>>::empty());
    assert(fields_upto(r, 1) == fields_upto(r, 0) + field_line(r, 0));
    assert(fields_upto(r, 2) == fields_upto(r, 1) + field_line(r, 1));
    assert(fields_upto(r, 3) == fields_upto(r, 2) + field_line(r, 2));
    assert(fields_upto(r, 4) == fields_upto(r, 3) + field_line(r, 3));
    assert(fields_upto(r, 5) == fields_upto(r, 4) + field_line(r, 4));
    assert(fields_upto(r, 6) == fields_upto(r, 5) + field_line(r, 5));
    assert(fields_upto(r, 7) == fields_upto(r, 6) + field_line(r, 6));
    assert(seq![Seq::<char>::empty(), rule_header()] + fields_upto(r, 7) =~= rule_block(r));
}

/// The lines of fields `0..n`.
pub open spec fn fields_upto(r: RuleView, n: int) -> Seq<Seq<char>>
    decreases n,
{
    if n <= 0 {
        seq![]
    } else {
        fields_upto(r, n - 1) + field_line(r, n - 1)
    }
}

/// The rules as a file, in the same subset of TOML `parse` reads. Written
/// whenever the panel changes one, so hand-editing and the panel agree.
pub fn render(rules: &[Rule]) -> (r: String)
    ensures
        r@ == seqs::ended(rule_lines(rule_views(rules@))),
{
    let ghost rs = rule_views(rules@);
    let mut out = text::chars_of("# muxget routing rules");
    out.push('\n');
    proof {
        assert(seq![rules_banner()].drop_first() =~= Seq::<Seq<char>>::empty());
        assert(seqs::ended(Seq::<Seq<char>>::empty()) =~= Seq::<char>::empty());
        assert(seq![rules_banner()][0] == rules_banner());
        assert(seqs::ended(seq![rules_banner()]) =~= rules_banner() + seq!['\n']);
        assert(rs.take(0) =~= Seq::<RuleView>::empty());
        assert(out@ =~= seqs::ended(rule_lines(rs.take(0))));
    }
    let mut i: usize = 0;
    while i < rules.len()
        invariant
            i <= rules@.len(),
            rs == rule_views(rules@),
            out@ == seqs::ended(rule_lines(rs.take(i as int))),
        decreases rules@.len() - i,
    {
        let block = rules[i].block();
        push_lines(&mut out, &block);
        proof {
            assert(rs.take(i + 1).drop_last() =~= rs.take(i as int));
            assert(rs.take(i + 1).last() == rs[i as int]);
            seqs::lemma_ended_concat(rule_lines(rs.take(i as int)), rule_block(rs[i as int]));
        }
        i += 1;
    }
    proof {
        assert(rs.take(rules@.len() as int) =~= rs);
    }
    text::string_of(out.as_slice())
}

// ---------------------------------------------------------------------------
// What the file gives back
// ---------------------------------------------------------------------------

/// An item of a list the file holds as it is: not empty, no whitespace or
/// quote at its ends, no separator, comment sign or newline in it, and
/// already lowercase.
pub open spec fn plain_item(v: Seq<char>) -> bool {
    &&& v.len() > 0
    &&& !seqs::is_ws(v[0])
    &&& !seqs::is_ws(v.last())
    &&& seqs::free_of(v, ',')
    &&& channel::plain_value(v)
    &&& text::lowercase(v) == v
}

/// A text field the file holds as it is: when set, not empty and plain.
pub open spec fn plain_text(o: Option<Seq<char>>) -> bool {
    match o {
        Some(v) => v.len() > 0 && channel::plain_value(v),
        None => true,
    }
}

/// A rule the file gives back as it is: its list items are plain (an
/// extension without a leading dot), its size reads back as the same
/// number of bytes, its texts (pattern and destinations) are plain, and it
/// decides something.
pub open spec fn clean_rule(r: RuleView) -> bool {
    &&& forall|k: int|
        0 <= k < r.extensions.len() ==> plain_item(#[trigger] r.extensions[k]) && r.extensions[k][0] != '.'
    &&& forall|k: int| 0 <= k < r.domains.len() ==> plain_item(#[trigger] r.domains[k])
    &&& match r.min_size {
        Some(n) => parse::size_of(parse::human_of(n as nat)) == Some(n),
        None => true,
    }
    &&& plain_text(r.pattern)
    &&& plain_text(r.queue)
    &&& plain_text(r.directory)
    &&& plain_text(r.backend)
    &&& decides(r)
}

/// A text in double quotes.
pub open spec fn quoted(x: Seq<char>) -> Seq<char> {
    seq!['"'] + x + seq!['"']
}

/// The pieces `split` at `,` gives of items joined with ", ": each after
/// the first keeps its space.
pub open spec fn spaced(items: Seq<Seq<char>>) -> Seq<Seq<char>> {
    Seq::new(items.len(), |k: int| if k == 0 { items[0] } else { seq![' '] + items[k] })
}

/// A join of texts free of `c`, with a separator free of `c`, is free of it.
proof fn lemma_join_free(parts: Seq<Seq<char>>, sep: Seq<char>, c: char)
    requires
        seqs::free_of(sep, c),
        forall|k: int| 0 <= k < parts.len() ==> seqs::free_of(#[trigger] parts[k], c),
    ensures
        seqs::free_of(join(parts, sep), c),
    decreases parts.len(),
{
    if parts.len() > 1 {
        let init = parts.drop_last();
        assert forall|k: int| 0 <= k < init.len() implies seqs::free_of(#[trigger] init[k], c) by {
            assert(init[k] == parts[k]);
        }
        lemma_join_free(init, sep, c);
        assert(seqs::free_of(parts[parts.len() - 1], c));
        let j = join(init, sep);
        let l = parts.last();
        assert forall|i: int| 0 <= i < join(parts, sep).len() implies join(parts, sep)[i] != c by {
            if i < j.len() {
                assert(join(parts, sep)[i] == j[i]);
            } else if i < j.len() + sep.len() {
                assert(join(parts, sep)[i] == sep[i - j.len()]);
            } else {
                assert(join(parts, sep)[i] == l[i - j.len() - sep.len()]);
            }
        }
    } else if parts.len() == 1 {
        assert(seqs::free_of(parts[0], c));
    }
}

/// A join of non-empty texts starts where the first does and ends where the
/// last does.
proof fn lemma_join_ends(parts: Seq<Seq<char>>, sep: Seq<char>)
    requires
        parts.len() > 0,
        forall|k: int| 0 <= k < parts.len() ==> (#[trigger] parts[k]).len() > 0,
    ensures
        join(parts, sep).len() > 0,
        join(parts, sep)[0] == parts[0][0],
        join(parts, sep).last() == parts.last().last(),
    decreases parts.len(),
{
    if parts.len() > 1 {
        let init = parts.drop_last();
        assert forall|k: int| 0 <= k < init.len() implies (#[trigger] init[k]).len() > 0 by {
            assert(init[k] == parts[k]);
        }
        lemma_join_ends(init, sep);
        assert(parts[parts.len() - 1].len() > 0);
        assert(init[0] == parts[0]);
    }
}

/// Items free of `,` joined with ", " split back into their spaced pieces.
proof fn lemma_split_join(items: Seq<Seq<char>>)
    requires
        items.len() > 0,
        forall|k: int| 0 <= k < items.len() ==> seqs::free_of(#[trigger] items[k], ','),
    ensures
        seqs::split(join(items, ", "@), ',') == spaced(items),
    decreases items.len(),
{
    reveal_strlit(", ");
    if items.len() == 1 {
        assert(seqs::free_of(items[0], ','));
        seqs::lemma_split_none(items[0], ',');
        assert(spaced(items) =~= seq![items[0]]);
    } else {
        let init = items.drop_last();
        assert forall|k: int| 0 <= k < init.len() implies seqs::free_of(#[trigger] init[k], ',') by {
            assert(init[k] == items[k]);
        }
        lemma_split_join(init);
        let l = items.last();
        assert(seqs::free_of(items[items.len() - 1], ','));
        let sl = seq![' '] + l;
        assert forall|i: int| 0 <= i < sl.len() implies sl[i] != ',' by {
            if i > 0 {
                assert(sl[i] == l[i - 1]);
            }
        }
        let j = join(init, ", "@);
        assert(join(items, ", "@) =~= j + seq![','] + sl);
        seqs::lemma_split_last(j, sl, ',');
        assert(spaced(init).push(sl) =~= spaced(items));
    }
}

/// Items that need no trimming, joined with ", ", come out of
/// `quoted_list` each in quotes.
proof fn lemma_quoted_join(items: Seq<Seq<char>>)
    requires
        items.len() > 0,
        forall|k: int| 0 <= k < items.len() ==> plain_item(#[trigger] items[k]),
    ensures
        quoted_list(join(items, ", "@)) == join(items.map_values(|x: Seq<char>| quoted(x)), ", "@),
{
    assert forall|k: int| 0 <= k < items.len() implies seqs::free_of(#[trigger] items[k], ',') by {
        assert(plain_item(items[k]));
    }
    lemma_split_join(items);
    let pieces = spaced(items);
    let f = |v: Seq<char>| seq!['"'] + seqs::trim(v) + seq!['"'];
    assert forall|k: int| 0 <= k < items.len() implies #[trigger] pieces.map_values(f)[k] == quoted(items[k]) by {
        assert(plain_item(items[k]));
        seqs::lemma_trim_spaced(items[k]);
    }
    assert(pieces.map_values(f) =~= items.map_values(|x: Seq<char>| quoted(x)));
}

/// The spaced pieces of quoted plain items unquote to the items.
proof fn lemma_unquote_all(items: Seq<Seq<char>>)
    requires
        items.len() > 0,
        forall|k: int| 0 <= k < items.len() ==> plain_item(#[trigger] items[k]),
    ensures
        spaced(items.map_values(|x: Seq<char>| quoted(x))).map_values(|p: Seq<char>| unquoted(p)) == items,
{
    let q = items.map_values(|x: Seq<char>| quoted(x));
    let m = spaced(q).map_values(|p: Seq<char>| unquoted(p));
    assert forall|k: int| 0 <= k < items.len() implies #[trigger] m[k] == items[k] by {
        assert(plain_item(items[k]));
        channel::lemma_unquote(items[k]);
        assert(seq![' '] + quoted(items[k]) =~= seq![' ', '"'] + items[k] + seq!['"']);
    }
    assert(m =~= items);
}

/// A list of non-empty texts keeps all of them.
proof fn lemma_nonempty_all(v: Seq<Seq<char>>)
    requires
        forall|k: int| 0 <= k < v.len() ==> (#[trigger] v[k]).len() > 0,
    ensures
        nonempty(v) == v,
    decreases v.len(),
{
    if v.len() > 0 {
        let init = v.drop_last();
        assert forall|k: int| 0 <= k < init.len() implies (#[trigger] init[k]).len() > 0 by {
            assert(init[k] == v[k]);
        }
        lemma_nonempty_all(init);
        assert(v[v.len() - 1].len() > 0);
        assert(init.push(v.last()) =~= v);
    }
}

/// A quoted plain item is free of a separator, a comment sign and a newline.
proof fn lemma_quoted_free(x: Seq<char>)
    requires
        plain_item(x),
    ensures
        seqs::free_of(quoted(x), ','),
        seqs::free_of(quoted(x), '#'),
        seqs::free_of(quoted(x), '\n'),
        quoted(x).len() > 0,
        quoted(x)[0] == '"',
        quoted(x).last() == '"',
{
    let q = quoted(x);
    assert forall|i: int| 0 < i < q.len() - 1 implies q[i] == x[i - 1] by {}
}

/// How the line of a list field reads back.
proof fn lemma_list_line(key: Seq<char>, items: Seq<Seq<char>>)
    requires
        channel::plain_key(key),
        items.len() > 0,
        forall|k: int| 0 <= k < items.len() ==> plain_item(#[trigger] items[k]),
    ensures
        ({
            let j = join(items.map_values(|x: Seq<char>| quoted(x)), ", "@);
            let line = key + " = ["@ + quoted_list(join(items, ", "@)) + "]"@;
            &&& seqs::one_line(line)
            &&& content(line) == line
            &&& line[0] == key[0]
            &&& seqs::split_once(line, seq!['=']) == Some((key + seq![' '], seq![' ', '['] + j + seq![']']))
            &&& seqs::trim(key + seq![' ']) == key
            &&& list_of(seqs::trim(seq![' ', '['] + j + seq![']'])) == items
        }),
{
    reveal_strlit(" = [");
    reveal_strlit("]");
    reveal_strlit(", ");
    let q = items.map_values(|x: Seq<char>| quoted(x));
    let j = join(q, ", "@);
    let line = key + " = ["@ + quoted_list(join(items, ", "@)) + "]"@;
    lemma_quoted_join(items);
    assert forall|k: int| 0 <= k < q.len() implies {
        &&& seqs::free_of(#[trigger] q[k], ',')
        &&& seqs::free_of(q[k], '#')
        &&& seqs::free_of(q[k], '\n')
        &&& q[k].len() > 0
    } by {
        assert(plain_item(items[k]));
        lemma_quoted_free(items[k]);
    }
    lemma_join_ends(q, ", "@);
    lemma_quoted_free(items[0]);
    assert(q[0] == quoted(items[0]));
    lemma_quoted_free(items[items.len() - 1]);
    assert(q.last() == quoted(items.last()));
    lemma_join_free(q, ", "@, '#');
    lemma_join_free(q, ", "@, '\n');
    let kk = key + seq![' '];
    let rest = seq![' ', '['] + j + seq![']'];
    assert(line =~= kk + seq!['='] + rest);
    assert forall|i: int| 0 <= i < kk.len() implies kk[i] != '=' by {
        if i < key.len() {
            assert(kk[i] == key[i]);
        }
    }
    seqs::lemma_split_first(kk, rest, '=');
    // The whole line: no comment sign, no newline, trimmed.
    assert forall|i: int| 0 <= i < line.len() implies line[i] != '#' && line[i] != '\n' by {
        if i < key.len() {
            assert(line[i] == key[i]);
        } else if key.len() + 4 <= i < key.len() + 4 + j.len() {
            assert(line[i] == j[i - key.len() - 4]);
        }
    }
    assert forall|i: int| 0 <= i < line.len() implies !seq!['#'].contains(#[trigger] line[i]) by {
        seqs::lemma_in_one(line[i], '#');
    }
    seqs::lemma_before_none(line, seq!['#']);
    assert(line[0] == key[0]);
    assert(line.last() == ']');
    seqs::lemma_trim_ends(line);
    // The key.
    assert(seqs::trim_start(kk) == kk);
    assert(kk.drop_last() =~= key);
    assert(seqs::trim_end(key) == key);
    assert(seqs::trim_end(kk) == seqs::trim_end(key));
    // The value.
    let w = seq!['['] + j + seq![']'];
    assert(rest.drop_first() =~= w);
    assert(seqs::trim_start(rest) == seqs::trim_start(w));
    seqs::lemma_trim_ends(w);
    assert(seqs::trim(rest) == w);
    lemma_trim_twice(rest);
    seqs::lemma_in_one('[', '[');
    seqs::lemma_in_one(j[0], '[');
    let t = j + seq![']'];
    assert(w.drop_first() =~= t);
    assert(seqs::strip_start(w, seq!['[']) == seqs::strip_start(t, seq!['[']));
    assert(t[0] == j[0]);
    assert(seqs::strip_start(t, seq!['[']) == t);
    seqs::lemma_in_one(']', ']');
    seqs::lemma_in_one(j.last(), ']');
    assert(t.drop_last() =~= j);
    assert(seqs::strip_end(t, seq![']']) == seqs::strip_end(j, seq![']']));
    assert(seqs::strip_end(j, seq![']']) == j);
    lemma_split_join(q);
    lemma_unquote_all(items);
    lemma_nonempty_all(items);
    assert(seqs::split(j, ',').map_values(|p: Seq<char>| unquoted(p)) =~= items);
}

/// A unit's name is letters ending in `B`.
proof fn lemma_unit_name(k: nat)
    ensures
        parse::unit_name(k).len() > 0,
        parse::unit_name(k).last() == 'B',
        forall|i: int|
            0 <= i < parse::unit_name(k).len() ==> 'A' <= #[trigger] parse::unit_name(k)[i] <= 'i',
{
    reveal_strlit("B");
    reveal_strlit("KiB");
    reveal_strlit("MiB");
    reveal_strlit("GiB");
    reveal_strlit("TiB");
}

/// A size as the file writes it is a plain value.
proof fn lemma_human_plain(n: nat)
    ensures
        parse::human_of(n).len() > 0,
        channel::plain_value(parse::human_of(n)),
{
    let k = parse::unit_steps(n, 0);
    let t = parse::round_even(n * 10, parse::pow1024(k));
    let d = seqs::decimal(t / 10);
    let u = parse::unit_name(k);
    let h = d + seq!['.', seqs::digit_char(t % 10)] + u;
    seqs::lemma_decimal_digits(t / 10);
    seqs::lemma_digit_char(t % 10);
    lemma_unit_name(k);
    assert(h == parse::human_of(n));
    assert forall|i: int| 0 <= i < h.len() implies h[i] != '#' && h[i] != '\n' by {
        if i < d.len() {
            assert(h[i] == d[i]);
            assert(seqs::is_digit(d[i]));
        } else if i == d.len() + 1 {
            assert(h[i] == seqs::digit_char(t % 10));
        } else if i >= d.len() + 2 {
            assert(h[i] == u[i - d.len() - 2]);
        }
    }
    assert(h[0] == d[0]);
    assert(seqs::is_digit(d[0]));
    assert(h.last() == u.last());
}

/// The names of the fields are keys as the file spells them, and tell
/// themselves apart.
proof fn lemma_field_names()
    ensures
        forall|i: int| 0 <= i < 7 ==> channel::plain_key(#[trigger] field_name(i)),
        forall|i: int| 0 <= i < 7 ==> (#[trigger] field_name(i))[0] != '[',
        forall|i: int, j: int| 0 <= i < 7 && 0 <= j < 7 && i != j ==> #[trigger] field_name(i) != #[trigger] field_name(j),
        field_name(0) == "extensions"@,
        field_name(1) == "domains"@,
        field_name(2) == "pattern"@,
        field_name(3) == "min_size"@,
        field_name(4) == "queue"@,
        field_name(5) == "directory"@,
        field_name(6) == "backend"@,
{
    reveal_strlit("extensions");
    reveal_strlit("domains");
    reveal_strlit("pattern");
    reveal_strlit("min_size");
    reveal_strlit("queue");
    reveal_strlit("directory");
    reveal_strlit("backend");
    assert("domains"@[0] != "backend"@[0]);
    assert("pattern"@[0] != "directory"@[0]);
    assert forall|i: int| 0 <= i < 7 implies channel::plain_key(#[trigger] field_name(i)) by {
        let k = field_name(i);
        assert forall|m: int| 0 <= m < k.len() implies 'a' <= #[trigger] k[m] <= 'z' || k[m] == '_' by {}
    }
    assert forall|i: int, j: int| 0 <= i < 7 && 0 <= j < 7 && i != j implies #[trigger] field_name(i)
        != #[trigger] field_name(j) by {
        if field_name(i).len() == field_name(j).len() {
            assert(field_name(i)[0] != field_name(j)[0]);
        }
    }
}

/// Reading the lines of `a` and then those of `b`.
proof fn lemma_rules_concat(rs: Seq<RuleView>, a: Seq<Seq<char>>, b: Seq<Seq<char>>)
    ensures
        rules_from(rs, a + b) == rules_from(rules_from(rs, a), b),
    decreases b.len(),
{
    if b.len() == 0 {
        assert(a + b =~= a);
    } else {
        lemma_rules_concat(rs, a, b.drop_last());
        assert((a + b).drop_last() =~= a + b.drop_last());
        assert((a + b).last() == b.last());
    }
}

/// A rule with its first `n` fields taken from `r` and the others unset.
pub open spec fn upto(r: RuleView, n: int) -> RuleView {
    RuleView {
        extensions: if n > 0 { r.extensions } else { seq![] },
        domains: if n > 1 { r.domains } else { seq![] },
        pattern: if n > 2 { r.pattern } else { None },
        min_size: if n > 3 { r.min_size } else { None },
        queue: if n > 4 { r.queue } else { None },
        directory: if n > 5 { r.directory } else { None },
        backend: if n > 6 { r.backend } else { None },
    }
}

/// A field the file writes nothing for is one the rule leaves unset.
proof fn lemma_empty_field(r: RuleView, i: int)
    requires
        clean_rule(r),
        0 <= i < 7,
        get_of(r, i).len() == 0,
    ensures
        upto(r, i + 1) == upto(r, i),
{
    if i == 0 && r.extensions.len() > 0 {
        assert forall|k: int| 0 <= k < r.extensions.len() implies (#[trigger] r.extensions[k]).len() > 0 by {
            assert(plain_item(r.extensions[k]));
        }
        lemma_join_ends(r.extensions, ", "@);
    }
    if i == 1 && r.domains.len() > 0 {
        assert forall|k: int| 0 <= k < r.domains.len() implies (#[trigger] r.domains[k]).len() > 0 by {
            assert(plain_item(r.domains[k]));
        }
        lemma_join_ends(r.domains, ", "@);
    }
    if i == 3 {
        if let Some(n) = r.min_size {
            lemma_human_plain(n as nat);
        }
    }
    assert(upto(r, i + 1) =~= upto(r, i));
}

/// The line of a list field sets that field of the last rule.
proof fn lemma_list_field_read(prev: Seq<RuleView>, r: RuleView, i: int)
    requires
        clean_rule(r),
        0 <= i < 2,
        get_of(r, i).len() > 0,
    ensures
        field_line(r, i).len() == 1,
        seqs::one_line(field_line(r, i)[0]),
        rules_from(prev.push(upto(r, i)), field_line(r, i)) == prev.push(upto(r, i + 1)),
{
    lemma_field_names();
    let items = if i == 0 { r.extensions } else { r.domains };
    assert forall|k: int| 0 <= k < items.len() implies plain_item(#[trigger] items[k]) by {
        if i == 0 {
            assert(plain_item(r.extensions[k]));
        } else {
            assert(plain_item(r.domains[k]));
        }
    }
    if items.len() == 0 {
        assert(join(items, ", "@) =~= Seq::<char>::empty());
    }
    let key = field_name(i);
    lemma_list_line(key, items);
    let j = join(items.map_values(|x: Seq<char>| quoted(x)), ", "@);
    let line = key + " = ["@ + quoted_list(join(items, ", "@)) + "]"@;
    assert(field_line(r, i) == seq![line]);
    let rs = prev.push(upto(r, i));
    let rest = seq![' ', '['] + j + seq![']'];
    let v = seqs::trim(rest);
    assert(line[0] != rule_header()[0]);
    assert(content(line) != rule_header());
    assert(rs.last() == upto(r, i));
    if i == 0 {
        assert forall|k: int| 0 <= k < items.len() implies #[trigger] exts_of(items)[k] == items[k] by {
            assert(plain_item(r.extensions[k]));
            assert(r.extensions[k][0] != '.');
            seqs::lemma_in_one(items[k][0], '.');
            assert(seqs::strip_start(items[k], seq!['.']) == items[k]);
        }
        assert(exts_of(items) =~= items);
        assert(rule_step(rs, line) =~= prev.push(upto(r, 1)));
    } else {
        assert(list_of(v).map_values(|d: Seq<char>| text::lowercase(d)) =~= items);
        assert(rule_step(rs, line) =~= prev.push(upto(r, 2)));
    }
    assert(seq![line].drop_last() =~= Seq::<Seq<char>>::empty());
    assert(rules_from(rs, Seq::<Seq<char>>::empty()) == rs);
    assert(seq![line].last() == line);
    assert(rules_from(rs, seq![line]) == rule_step(rs, line));
}

/// The line of a size or text field sets that field of the last rule.
proof fn lemma_text_field_read(prev: Seq<RuleView>, r: RuleView, i: int)
    requires
        clean_rule(r),
        2 <= i < 7,
        get_of(r, i).len() > 0,
    ensures
        field_line(r, i).len() == 1,
        seqs::one_line(field_line(r, i)[0]),
        rules_from(prev.push(upto(r, i)), field_line(r, i)) == prev.push(upto(r, i + 1)),
{
    lemma_field_names();
    let key = field_name(i);
    let value = get_of(r, i);
    if i == 3 {
        lemma_human_plain(r.min_size->0 as nat);
    }
    assert(channel::plain_value(value));
    channel::lemma_kv_read(key, value);
    let line = channel::kv_line(key, value);
    reveal_strlit(" = \"");
    reveal_strlit("\"");
    assert(" = \""@ =~= seq![' ', '=', ' ', '"']);
    assert("\""@ =~= seq!['"']);
    assert(key + " = \""@ + value + "\""@ =~= line);
    assert(field_line(r, i) =~= seq![line]);
    let rest = seq![' ', '"'] + value + seq!['"'];
    let qv = quoted(value);
    assert(rest.drop_first() =~= qv);
    assert(seqs::trim_start(rest) == seqs::trim_start(qv));
    seqs::lemma_trim_ends(qv);
    channel::lemma_unquote(value);
    assert(unquoted(seqs::trim(rest)) == value);
    let rs = prev.push(upto(r, i));
    assert(line[0] != rule_header()[0]);
    assert(content(line) != rule_header());
    assert(rs.last() == upto(r, i));
    assert(rule_step(rs, line) =~= prev.push(upto(r, i + 1)));
    assert(seq![line].drop_last() =~= Seq::<Seq<char>>::empty());
    assert(rules_from(rs, Seq::<Seq<char>>::empty()) == rs);
    assert(seq![line].last() == line);
    assert(rules_from(rs, seq![line]) == rule_step(rs, line));
}

/// The line of any field, or its absence, sets that field of the last rule.
proof fn lemma_field_read(prev: Seq<RuleView>, r: RuleView, i: int)
    requires
        clean_rule(r),
        0 <= i < 7,
    ensures
        forall|m: int| 0 <= m < field_line(r, i).len() ==> seqs::one_line(#[trigger] field_line(r, i)[m]),
        rules_from(prev.push(upto(r, i)), field_line(r, i)) == prev.push(upto(r, i + 1)),
{
    if get_of(r, i).len() == 0 {
        lemma_empty_field(r, i);
        assert(field_line(r, i) =~= Seq::<Seq<char>>::empty());
    } else if i < 2 {
        lemma_list_field_read(prev, r, i);
    } else {
        lemma_text_field_read(prev, r, i);
    }
}

/// The blank line and the header open an empty rule.
proof fn lemma_block_start(prev: Seq<RuleView>)
    ensures
        rules_from(prev, seq![Seq::<char>::empty(), rule_header()]) == prev.push(empty_rule()),
        seqs::one_line(rule_header()),
        seqs::one_line(Seq::<char>::empty()),
{
    let e = Seq::<char>::empty();
    let h = rule_header();
    seqs::lemma_before_none(e, seq!['#']);
    assert(seqs::trim(e) =~= e);
    assert(content(e) =~= e);
    assert(e != h) by {
        assert(h.len() == 8);
    }
    assert(seqs::split_once(e, seq!['=']) is None);
    assert(rule_step(prev, e) == prev);
    assert forall|i: int| 0 <= i < h.len() implies !seq!['#'].contains(#[trigger] h[i]) by {
        seqs::lemma_in_one(h[i], '#');
    }
    seqs::lemma_before_none(h, seq!['#']);
    seqs::lemma_trim_ends(h);
    assert(rule_step(prev, h) == prev.push(empty_rule()));
    let two = seq![e, h];
    assert(two.drop_last() =~= seq![e]);
    assert(seq![e].drop_last() =~= Seq::<Seq<char>>::empty());
    assert(rules_from(prev, Seq::<Seq<char>>::empty()) == prev);
    assert(rules_from(prev, seq![e]) == rule_step(prev, e));
    assert(rules_from(prev, two) == rule_step(rules_from(prev, seq![e]), h));
}

/// The header and the first `n` fields' lines open a rule with those
/// fields set.
proof fn lemma_fields_read(prev: Seq<RuleView>, r: RuleView, n: int)
    requires
        clean_rule(r),
        0 <= n <= 7,
    ensures
        rules_from(prev, seq![Seq::<char>::empty(), rule_header()] + fields_upto(r, n)) == prev.push(
            upto(r, n),
        ),
        forall|m: int| 0 <= m < fields_upto(r, n).len() ==> seqs::one_line(#[trigger] fields_upto(r, n)[m]),
    decreases n,
{
    let start = seq![Seq::<char>::empty(), rule_header()];
    if n == 0 {
        assert(start + fields_upto(r, 0) =~= start);
        lemma_block_start(prev);
        assert(upto(r, 0) =~= empty_rule());
    } else {
        lemma_fields_read(prev, r, n - 1);
        lemma_field_read(prev, r, n - 1);
        let before = fields_upto(r, n - 1);
        let fl = field_line(r, n - 1);
        assert(fields_upto(r, n) == before + fl);
        assert(start + fields_upto(r, n) =~= (start + before) + fl);
        lemma_rules_concat(prev, start + before, fl);
        assert forall|m: int| 0 <= m < fields_upto(r, n).len() implies seqs::one_line(
            #[trigger] fields_upto(r, n)[m],
        ) by {
            if m < before.len() {
                assert(fields_upto(r, n)[m] == before[m]);
            } else {
                assert(fields_upto(r, n)[m] == fl[m - before.len()]);
            }
        }
    }
}

/// A rule's lines add it to what was read before.
proof fn lemma_block_read(prev: Seq<RuleView>, r: RuleView)
    requires
        clean_rule(r),
    ensures
        rules_from(prev, rule_block(r)) == prev.push(r),
        forall|m: int| 0 <= m < rule_block(r).len() ==> seqs::one_line(#[trigger] rule_block(r)[m]),
{
    lemma_fields_read(prev, r, 7);
    lemma_fields_all(r);
    lemma_block_start(prev);
    assert(upto(r, 7) =~= r);
    let start = seq![Seq::<char>::empty(), rule_header()];
    let fs = fields_upto(r, 7);
    assert forall|m: int| 0 <= m < rule_block(r).len() implies seqs::one_line(#[trigger] rule_block(r)[m]) by {
        if m >= 2 {
            assert(rule_block(r)[m] == fs[m - 2]);
        } else if m == 1 {
            assert(rule_block(r)[m] == rule_header());
        } else {
            assert(rule_block(r)[m] == Seq::<char>::empty());
        }
    }
}

/// Reading back the lines of the file gives the rules, and each line is
/// one `str::lines` gives back whole.
proof fn lemma_rule_lines_read(rs: Seq<RuleView>)
    requires
        forall|k: int| 0 <= k < rs.len() ==> clean_rule(#[trigger] rs[k]),
    ensures
        rules_from(seq![], rule_lines(rs)) == rs,
        forall|m: int| 0 <= m < rule_lines(rs).len() ==> seqs::one_line(#[trigger] rule_lines(rs)[m]),
    decreases rs.len(),
{
    if rs.len() == 0 {
        reveal_strlit("# muxget routing rules");
        let b = rules_banner();
        seqs::lemma_find_any(b, seq!['#'], 0);
        seqs::lemma_in_one(b[0], '#');
        assert(seqs::before_any(b, seq!['#']) =~= Seq::<char>::empty());
        assert(content(b) =~= Seq::<char>::empty());
        assert(content(b) != rule_header()) by {
            assert(rule_header().len() == 8);
        }
        assert(seq![b].drop_last() =~= Seq::<Seq<char>>::empty());
        assert(rules_from(seq![], Seq::<Seq<char>>::empty()) == Seq::<RuleView>::empty());
        assert(rule_lines(rs) == seq![b]);
        assert(rule_step(seq![], b) == Seq::<RuleView>::empty());
        assert(rs =~= Seq::<RuleView>::empty());
        assert(seqs::one_line(b));
    } else {
        let init = rs.drop_last();
        assert forall|k: int| 0 <= k < init.len() implies clean_rule(#[trigger] init[k]) by {
            assert(init[k] == rs[k]);
        }
        lemma_rule_lines_read(init);
        let r = rs.last();
        assert(clean_rule(rs[rs.len() - 1]));
        let before = rule_lines(init);
        let block = rule_block(r);
        assert(rule_lines(rs) == before + block);
        lemma_rules_concat(seq![], before, block);
        lemma_block_read(init, r);
        assert(init.push(r) =~= rs);
        assert forall|m: int| 0 <= m < rule_lines(rs).len() implies seqs::one_line(#[trigger] rule_lines(rs)[m]) by {
            if m < before.len() {
                assert(rule_lines(rs)[m] == before[m]);
            } else {
                assert(rule_lines(rs)[m] == block[m - before.len()]);
            }
        }
    }
}

/// Rules that all decide something are all kept.
proof fn lemma_deciding_all(rs: Seq<RuleView>)
    requires
        forall|k: int| 0 <= k < rs.len() ==> decides(#[trigger] rs[k]),
    ensures
        deciding(rs) == rs,
    decreases rs.len(),
{
    if rs.len() > 0 {
        let init = rs.drop_last();
        assert forall|k: int| 0 <= k < init.len() implies decides(#[trigger] init[k]) by {
            assert(init[k] == rs[k]);
        }
        lemma_deciding_all(init);
        assert(decides(rs[rs.len() - 1]));
        assert(init.push(rs.last()) =~= rs);
    }
}

/// What `render` writes, `parse` reads back: the same rules in the same
/// order, for rules the file can hold as they are. `render` ensures its
/// text is `ended(rule_lines(..))` of the rules' views and `parse` ensures
/// its rules' views are `rules_of` its text, so this is what
/// `parse(&render(..))` gives.
pub proof fn law_rules_round_trip(rs: Seq<RuleView>)
    requires
        forall|k: int| 0 <= k < rs.len() ==> clean_rule(#[trigger] rs[k]),
    ensures
        rules_of(seqs::ended(rule_lines(rs))) == rs,
{
    lemma_rule_lines_read(rs);
    seqs::lemma_lines_ended(rule_lines(rs));
    assert forall|k: int| 0 <= k < rs.len() implies decides(#[trigger] rs[k]) by {
        assert(clean_rule(rs[k]));
    }
    lemma_deciding_all(rs);
}

// ---------------------------------------------------------------------------
// Url patterns
// ---------------------------------------------------------------------------

/// A text with its ASCII letters lowercased, letter for letter.
pub open spec fn folded(s: Seq<char>) -> Seq<char> {
    s.map_values(|c: char| seqs::ascii_lower(c))
}

/// Where the path segment at `i` ends: the first `/` at or after it, or the
/// end of the text.
pub open spec fn segment_end(s: Seq<char>, i: nat) -> nat {
    match seqs::find_any_from(s, seq!['/'], i) {
        Some(e) => e,
        None => s.len(),
    }
}

/// The first position from `j` up to `end` where `lit` stands in `s`.
pub open spec fn lit_from(s: Seq<char>, lit: Seq<char>, j: nat, end: nat) -> Option<nat>
    decreases end + 1 - j,
{
    if j > end {
        None
    } else if seqs::occurs_at(s, lit, j as int) {
        Some(j)
    } else {
        lit_from(s, lit, j + 1, end)
    }
}

/// What the stars cover from position `i` on, each star followed by its
/// literal in `lits`. A star covers at least one character and never a
/// `/`: one that ends the pattern takes the rest of its path segment, any
/// other stops where its literal first follows. `f` is the url folded, `u`
/// the url as typed, which is what the covered text is cut from.
pub open spec fn stars_from(f: Seq<char>, u: Seq<char>, i: nat, lits: Seq<Seq<char>>) -> Option<Seq<Seq<char>>>
    decreases lits.len(),
{
    if lits.len() == 0 {
        Some(seq![])
    } else if lits.len() == 1 && lits[0].len() == 0 {
        let e = segment_end(f, i);
        if e > i {
            Some(seq![u.subrange(i as int, e as int)])
        } else {
            None
        }
    } else {
        match lit_from(f, lits[0], i + 1, segment_end(f, i)) {
            Some(j) => match stars_from(f, u, j + lits[0].len(), lits.drop_first()) {
                Some(rest) => Some(seq![u.subrange(i as int, j as int)] + rest),
                None => None,
            },
            None => None,
        }
    }
}

/// The pattern split at its stars, matched from position `s` of the url on:
/// the first start where its front stands and its stars can be covered.
pub open spec fn capture_from(f: Seq<char>, u: Seq<char>, pieces: Seq<Seq<char>>, s: nat) -> Option<
    Seq<Seq<char>>,
>
    decreases f.len() + 1 - s,
{
    if s > f.len() {
        None
    } else if seqs::occurs_at(f, pieces[0], s as int) {
        match stars_from(f, u, s + pieces[0].len(), pieces.drop_first()) {
            Some(c) => Some(c),
            None => capture_from(f, u, pieces, s + 1),
        }
    } else {
        capture_from(f, u, pieces, s + 1)
    }
}

/// What the stars of a url pattern cover in a url, left to right; `None`
/// when the pattern is not in the url. A pattern without a star is a plain
/// substring. Letters match whatever their case, and what comes back keeps
/// the case the url has.
pub open spec fn capture_of(pattern: Seq<char>, url: Seq<char>) -> Option<Seq<Seq<char>>> {
    capture_from(folded(url), url, seqs::split(folded(pattern), '*'), 0)
}

/// What a rule's pattern covers in a url; nothing when it has none.
pub open spec fn rule_captures(r: RuleView, url: Seq<char>) -> Option<Seq<Seq<char>>> {
    match r.pattern {
        Some(p) => capture_of(p, url),
        None => Some(seq![]),
    }
}

/// A destination with each `$n` (`n` from 1 to 9) replaced by the `n`-th
/// capture; `None` when one has no capture to fill it, rather than a
/// directory literally named `$1`.
pub open spec fn fill_of(t: Seq<char>, caught: Seq<Seq<char>>) -> Option<Seq<char>>
    decreases t.len(),
{
    if t.len() == 0 {
        Some(seq![])
    } else if t[0] == '$' && t.len() > 1 && '1' <= t[1] && t[1] <= '9' {
        let k = (t[1] as u32 - '1' as u32) as int;
        if k < caught.len() {
            match fill_of(t.skip(2), caught) {
                Some(r) => Some(caught[k] + r),
                None => None,
            }
        } else {
            None
        }
    } else {
        match fill_of(t.drop_first(), caught) {
            Some(r) => Some(seq![t[0]] + r),
            None => None,
        }
    }
}

/// Where the path segment at `i` ends.
fn segment_end_at(f: &[char], i: usize) -> (e: usize)
    requires
        i <= f@.len(),
    ensures
        e == segment_end(f@, i as nat),
        i <= e <= f@.len(),
{
    let mut k = i;
    while k < f.len() && f[k] != '/'
        invariant
            i <= k <= f@.len(),
            seqs::find_any_from(f@, seq!['/'], i as nat) == seqs::find_any_from(f@, seq!['/'], k as nat),
        decreases f@.len() - k,
    {
        proof {
            seqs::lemma_in_one(f@[k as int], '/');
        }
        k += 1;
    }
    proof {
        if k < f@.len() {
            seqs::lemma_in_one(f@[k as int], '/');
        }
    }
    k
}

/// The first position from `from` up to `end` where `lit` stands.
fn find_lit(f: &[char], lit: &[char], from: usize, end: usize) -> (r: Option<usize>)
    requires
        from <= end <= f@.len(),
    ensures
        match r {
            Some(j) => lit_from(f@, lit@, from as nat, end as nat) == Some(j as nat) && from <= j <= end
                && j + lit@.len() <= f@.len(),
            None => lit_from(f@, lit@, from as nat, end as nat) is None,
        },
{
    let mut j = from;
    while j < end
        invariant
            from <= j <= end,
            end <= f@.len(),
            lit_from(f@, lit@, from as nat, end as nat) == lit_from(f@, lit@, j as nat, end as nat),
        decreases end - j,
    {
        if text::occurs_at(f, lit, j) {
            return Some(j);
        }
        j += 1;
    }
    if text::occurs_at(f, lit, j) {
        Some(j)
    } else {
        proof {
            assert(lit_from(f@, lit@, (j + 1) as nat, end as nat) is None);
        }
        None
    }
}

/// What the stars cover from position `i` on, the literals being those of
/// `lits` from `k` on.
fn stars(f: &[char], u: &[char], i: usize, lits: &Vec<Vec<char>>, k: usize) -> (r: Option<Vec<String>>)
    requires
        f@.len() == u@.len(),
        i <= f@.len(),
        k <= lits@.len(),
    ensures
        match r {
            Some(v) => stars_from(f@, u@, i as nat, seqs::views(lits@).skip(k as int)) == Some(
                utils::strings(v@),
            ),
            None => stars_from(f@, u@, i as nat, seqs::views(lits@).skip(k as int)) is None,
        },
    decreases lits@.len() - k,
{
    let ghost ls = seqs::views(lits@).skip(k as int);
    if k == lits.len() {
        proof {
            assert(ls =~= Seq::<Seq<char>>::empty());
        }
        let v: Vec<String> = Vec::new();
        proof {
            assert(utils::strings(v@) =~= Seq::<Seq<char>>::empty());
        }
        return Some(v);
    }
    proof {
        assert(ls[0] == lits@[k as int]@);
        assert(ls.len() == lits@.len() - k);
    }
    let e = segment_end_at(f, i);
    if k + 1 == lits.len() && lits[k].len() == 0 {
        if e > i {
            let mut v: Vec<String> = Vec::new();
            v.push(text::string_of(text::slice_of(u, i, e).as_slice()));
            proof {
                assert(utils::strings(v@) =~= seq![u@.subrange(i as int, e as int)]);
            }
            return Some(v);
        } else {
            return None;
        }
    }
    if e <= i {
        proof {
            assert(lit_from(f@, ls[0], (i + 1) as nat, e as nat) is None);
        }
        return None;
    }
    let lit = lits[k].as_slice();
    match find_lit(f, lit, i + 1, e) {
        None => None,
        Some(j) => {
            proof {
                assert(lit@ == lits@[k as int]@);
                assert(j + lit@.len() <= f@.len());
                assert(f@.len() == f.len());
            }
            let next = j + lit.len();
            proof {
                assert(ls.drop_first() =~= seqs::views(lits@).skip(k + 1));
            }
            match stars(f, u, next, lits, k + 1) {
                Some(rest) => {
                    let mut v = rest;
                    let ghost before = utils::strings(v@);
                    v.insert(0, text::string_of(text::slice_of(u, i, j).as_slice()));
                    proof {
                        assert(utils::strings(v@) =~= seq![u@.subrange(i as int, j as int)] + before);
                    }
                    Some(v)
                },
                None => None,
            }
        },
    }
}

/// What the stars of a url pattern cover in a url, left to right; `None`
/// when the pattern is not in it.
pub fn capture(pattern: &str, url: &str) -> (r: Option<Vec<String>>)
    ensures
        match r {
            Some(v) => capture_of(pattern@, url@) == Some(utils::strings(v@)),
            None => capture_of(pattern@, url@) is None,
        },
{
    let u = text::chars_of(url);
    let f = text::lower_ascii(u.as_slice());
    let p = text::lower_ascii(text::chars_of(pattern).as_slice());
    let pieces = text::split(p.as_slice(), '*');
    let ghost pv = seqs::views(pieces@);
    proof {
        assert(pv.len() >= 1);
        assert(pv[0] == pieces@[0]@);
        assert(pv.skip(1) =~= pv.drop_first());
    }
    let mut s: usize = 0;
    loop
        invariant
            s <= f@.len(),
            f@.len() == u@.len(),
            f@ == folded(url@),
            u@ == url@,
            pv == seqs::views(pieces@),
            pv == seqs::split(folded(pattern@), '*'),
            pv.len() >= 1,
            pv[0] == pieces@[0]@,
            pv.skip(1) == pv.drop_first(),
            capture_of(pattern@, url@) == capture_from(f@, u@, pv, s as nat),
        decreases f@.len() - s,
    {
        if text::occurs_at(f.as_slice(), pieces[0].as_slice(), s) {
            let from = s + pieces[0].len();
            match stars(f.as_slice(), u.as_slice(), from, &pieces, 1) {
                Some(v) => {
                    return Some(v);
                },
                None => {},
            }
        }
        if s == f.len() {
            proof {
                assert(capture_from(f@, u@, pv, (s + 1) as nat) is None);
            }
            return None;
        }
        s += 1;
    }
}

/// A destination with each `$n` replaced by the `n`-th capture; `None` when
/// one has no capture to fill it.
pub fn fill_text(template: &str, caught: &[String]) -> (r: Option<String>)
    ensures
        match r {
            Some(s) => fill_of(template@, utils::strings(caught@)) == Some(s@),
            None => fill_of(template@, utils::strings(caught@)) is None,
        },
{
    let t = text::chars_of(template);
    let ghost c = utils::strings(caught@);
    let n = t.len();
    let mut out: Vec<char> = Vec::new();
    let mut i: usize = 0;
    proof {
        assert(t@.skip(0) =~= t@);
        match fill_of(t@, c) {
            Some(r) => {
                assert(out@ + r =~= r);
            },
            None => {},
        }
    }
    while i < n
        invariant
            n == t@.len(),
            i <= n,
            t@ == template@,
            c == utils::strings(caught@),
            fill_of(template@, c) == match fill_of(t@.skip(i as int), c) {
                Some(r) => Some(out@ + r),
                None => None,
            },
        decreases n - i,
    {
        let ghost rest = t@.skip(i as int);
        proof {
            assert(rest[0] == t@[i as int]);
        }
        if t[i] == '$' && i + 1 < n && '1' <= t[i + 1] && t[i + 1] <= '9' {
            let k = (t[i + 1] as u32 - '1' as u32) as usize;
            proof {
                assert(rest[1] == t@[i + 1]);
                assert(rest.skip(2) =~= t@.skip(i + 2));
            }
            if k < caught.len() {
                let ghost before = out@;
                text::push_all(&mut out, text::chars_of(caught[k].as_str()).as_slice());
                proof {
                    assert(c[k as int] == caught@[k as int]@);
                    match fill_of(t@.skip(i + 2), c) {
                        Some(r) => {
                            assert(before + (c[k as int] + r) =~= out@ + r);
                        },
                        None => {},
                    }
                }
                i += 2;
            } else {
                return None;
            }
        } else {
            let ghost before = out@;
            out.push(t[i]);
            proof {
                assert(rest.drop_first() =~= t@.skip(i + 1));
                match fill_of(t@.skip(i + 1), c) {
                    Some(r) => {
                        assert(before + (seq![t@[i as int]] + r) =~= out@ + r);
                    },
                    None => {},
                }
            }
            i += 1;
        }
    }
    proof {
        assert(t@.skip(n as int) =~= Seq::<char>::empty());
        assert(out@ + Seq::<char>::empty() =~= out@);
    }
    Some(text::string_of(out.as_slice()))
}

} // verus!
