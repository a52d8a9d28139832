//! Executable text handling over character vectors, each piece proved
//! against its specification in `seqs`.
use vstd::prelude::*;

use crate::seqs;

verus! {

/// What `str::to_lowercase` gives for a text: Unicode's full case mapping,
/// which is tables rather than a rule.
pub uninterp spec fn lowercase(s: Seq<char>) -> Seq<char>;

/// `char::is_alphanumeric`: Unicode's alphabetic and numeric categories.
pub uninterp spec fn alphanumeric(c: char) -> bool;


// ---------------------------------------------------------------------------
// Outside calls
// ---------------------------------------------------------------------------

/// `String::push`: the string grows by exactly that character.
#[verifier::external_body]
pub fn push_char(s: &mut String, c: char)
    ensures
        final(s)@ == old(s)@.push(c),
{
    s.push(c);
}

/// An ASCII text: every character below 128.
pub open spec fn ascii_text(s: Seq<char>) -> bool {
    forall|i: int| 0 <= i < s.len() ==> (#[trigger] s[i]) < '\u{80}'
}

/// An ASCII letter or digit.
pub open spec fn ascii_alphanumeric(c: char) -> bool {
    ('a' <= c <= 'z') || ('A' <= c <= 'Z') || ('0' <= c <= '9')
}

/// `str::to_lowercase`, whose result is named rather than restated. For an
/// ASCII text it is each letter lowercased in place, as Unicode's mapping
/// of the ASCII letters is.
#[verifier::external_body]
fn to_lowercase(s: &str) -> (r: String)
    ensures
        r@ == lowercase(s@),
        ascii_text(s@) ==> r@ == s@.map_values(|c: char| seqs::ascii_lower(c)),
{
    s.to_lowercase()
}

/// `char::is_alphanumeric`, whose result is named rather than restated. Of
/// the ASCII characters exactly the letters and digits are alphabetic or
/// numeric.
#[verifier::external_body]
pub fn is_alphanumeric(c: char) -> (r: bool)
    ensures
        r == alphanumeric(c),
        c < '\u{80}' ==> r == ascii_alphanumeric(c),
{
    c.is_alphanumeric()
}

// ---------------------------------------------------------------------------
// Conversions
// ---------------------------------------------------------------------------

/// The characters of a string slice, in order.
pub fn chars_of(s: &str) -> (v: Vec<char>)
    ensures
        v@ == s@,
{
    let mut v: Vec<char> = Vec::new();
    for c in it: s.chars()
        invariant
            v@ == it.seq().take(it.index() as int),
            it.seq() == s@,
    {
        v.push(c);
    }
    v
}

/// A string holding exactly these characters.
pub fn string_of(v: &[char]) -> (s: String)
    ensures
        s@ == v@,
{
    let mut s = String::new();
    let mut i: usize = 0;
    while i < v.len()
        invariant
            i <= v@.len(),
            s@ == v@.take(i as int),
        decreases v@.len() - i,
    {
        push_char(&mut s, v[i]);
        proof {
            assert(v@.take(i as int + 1) == v@.take(i as int).push(v@[i as int]));
        }
        i += 1;
    }
    proof {
        assert(v@.take(v@.len() as int) == v@);
    }
    s
}

/// The lowercase form of a text, as `str::to_lowercase` gives it.
pub fn lower(v: &[char]) -> (r: Vec<char>)
    ensures
        r@ == lowercase(v@),
        ascii_text(v@) ==> r@ == v@.map_values(|c: char| seqs::ascii_lower(c)),
{
    let s = string_of(v);
    let l = to_lowercase(s.as_str());
    chars_of(l.as_str())
}

/// `char::is_whitespace`.
pub fn is_ws_char(c: char) -> (r: bool)
    ensures
        r == seqs::is_ws(c),
{
    ('\t' <= c && c <= '\r') || c == ' ' || c == '\u{85}' || c == '\u{A0}' || c == '\u{1680}'
        || ('\u{2000}' <= c && c <= '\u{200A}') || c == '\u{2028}' || c == '\u{2029}'
        || c == '\u{202F}' || c == '\u{205F}' || c == '\u{3000}'
}

/// `c` is one of `set`.
pub fn in_set(c: char, set: &[char]) -> (r: bool)
    ensures
        r == set@.contains(c),
{
    let mut i: usize = 0;
    while i < set.len()
        invariant
            i <= set@.len(),
            forall|j: int| 0 <= j < i ==> set@[j] != c,
        decreases set@.len() - i,
    {
        if set[i] == c {
            return true;
        }
        i += 1;
    }
    false
}

/// The characters from `a` up to `b`.
pub fn slice_of(s: &[char], a: usize, b: usize) -> (r: Vec<char>)
    requires
        a <= b <= s@.len(),
    ensures
        r@ == s@.subrange(a as int, b as int),
{
    let mut r: Vec<char> = Vec::new();
    let mut i = a;
    while i < b
        invariant
            a <= i <= b <= s@.len(),
            r@ == s@.subrange(a as int, i as int),
        decreases b - i,
    {
        r.push(s[i]);
        proof {
            assert(s@.subrange(a as int, i + 1) == s@.subrange(a as int, i as int).push(s@[i as int]));
        }
        i += 1;
    }
    r
}

/// Two texts hold the same characters.
pub fn same(a: &[char], b: &[char]) -> (r: bool)
    ensures
        r == (a@ == b@),
{
    if a.len() != b.len() {
        return false;
    }
    let mut i: usize = 0;
    while i < a.len()
        invariant
            a@.len() == b@.len(),
            i <= a@.len(),
            forall|j: int| 0 <= j < i ==> a@[j] == b@[j],
        decreases a@.len() - i,
    {
        if a[i] != b[i] {
            return false;
        }
        i += 1;
    }
    proof {
        assert(a@ =~= b@);
    }
    true
}


// ---------------------------------------------------------------------------
// Searching
// ---------------------------------------------------------------------------

/// `str::starts_with`.
pub fn starts_with(s: &[char], p: &[char]) -> (r: bool)
    ensures
        r == seqs::starts_with(s@, p@),
{
    if p.len() > s.len() {
        return false;
    }
    let mut i: usize = 0;
    while i < p.len()
        invariant
            p@.len() <= s@.len(),
            i <= p@.len(),
            forall|j: int| 0 <= j < i ==> s@[j] == p@[j],
        decreases p@.len() - i,
    {
        if s[i] != p[i] {
            return false;
        }
        i += 1;
    }
    proof {
        assert(s@.subrange(0, p@.len() as int) =~= p@);
    }
    true
}

/// `p` stands in `s` at position `at`.
pub fn occurs_at(s: &[char], p: &[char], at: usize) -> (r: bool)
    ensures
        r == seqs::occurs_at(s@, p@, at as int),
{
    if at > s.len() || p.len() > s.len() - at {
        return false;
    }
    let n = s.len();
    let mut i: usize = 0;
    while i < p.len()
        invariant
            n == s@.len(),
            at + p@.len() <= s@.len(),
            i <= p@.len(),
            forall|j: int| 0 <= j < i ==> s@[at + j] == p@[j],
        decreases p@.len() - i,
    {
        if s[at + i] != p[i] {
            proof {
                assert(s@.subrange(at as int, at + p@.len())[i as int] != p@[i as int]);
            }
            return false;
        }
        i += 1;
    }
    proof {
        assert(s@.subrange(at as int, at + p@.len()) =~= p@);
    }
    true
}

/// `str::ends_with`.
pub fn ends_with(s: &[char], p: &[char]) -> (r: bool)
    ensures
        r == seqs::ends_with(s@, p@),
{
    if p.len() > s.len() {
        return false;
    }
    occurs_at(s, p, s.len() - p.len())
}

/// `str::find` with a string pattern.
pub fn find(s: &[char], p: &[char]) -> (r: Option<usize>)
    ensures
        match r {
            Some(i) => seqs::find(s@, p@) == Some(i as nat),
            None => seqs::find(s@, p@) is None,
        },
{
    let mut i: usize = 0;
    while i <= s.len()
        invariant
            i <= s@.len() + 1,
            seqs::find(s@, p@) == seqs::find_from(s@, p@, i as nat),
        decreases s@.len() + 1 - i,
    {
        if p.len() > s.len() - i {
            return None;
        }
        if p.len() == 0 {
            return Some(i);
        }
        if occurs_at(s, p, i) {
            return Some(i);
        }
        i += 1;
    }
    None
}

/// `str::contains` with a string pattern.
pub fn contains(s: &[char], p: &[char]) -> (r: bool)
    ensures
        r == seqs::contains(s@, p@),
{
    find(s, p).is_some()
}

/// `str::find` with a set of characters.
pub fn find_any(s: &[char], set: &[char]) -> (r: Option<usize>)
    ensures
        match r {
            Some(i) => seqs::find_any(s@, set@) == Some(i as nat),
            None => seqs::find_any(s@, set@) is None,
        },
{
    let mut i: usize = 0;
    while i < s.len()
        invariant
            i <= s@.len(),
            seqs::find_any(s@, set@) == seqs::find_any_from(s@, set@, i as nat),
        decreases s@.len() - i,
    {
        if in_set(s[i], set) {
            return Some(i);
        }
        i += 1;
    }
    None
}

/// `str::rfind` with a set of characters.
pub fn rfind_any(s: &[char], set: &[char]) -> (r: Option<usize>)
    ensures
        match r {
            Some(i) => seqs::rfind_any(s@, set@) == Some(i as nat),
            None => seqs::rfind_any(s@, set@) is None,
        },
{
    let mut i: usize = s.len();
    while i > 0
        invariant
            i <= s@.len(),
            seqs::rfind_any(s@, set@) == seqs::rfind_any_below(s@, set@, i as int),
        decreases i,
    {
        if in_set(s[i - 1], set) {
            return Some(i - 1);
        }
        i -= 1;
    }
    None
}

/// `s.split(set).next()`: what comes before the first character of `set`.
pub fn before_any(s: &[char], set: &[char]) -> (r: Vec<char>)
    ensures
        r@ == seqs::before_any(s@, set@),
{
    proof {
        seqs::lemma_find_any(s@, set@, 0);
    }
    match find_any(s, set) {
        Some(i) => {
            proof {
                assert(seqs::find_any(s@, set@) == Some(i as nat));
                assert(s@.subrange(0, i as int) =~= s@.take(i as int));
            }
            slice_of(s, 0, i)
        },
        None => {
            proof {
                assert(seqs::find_any(s@, set@) is None);
                assert(s@.subrange(0, s@.len() as int) =~= s@);
            }
            slice_of(s, 0, s.len())
        },
    }
}

/// `str::split_once` with a string pattern.
pub fn split_once(s: &[char], p: &[char]) -> (r: Option<(Vec<char>, Vec<char>)>)
    ensures
        match seqs::split_once(s@, p@) {
            Some((a, b)) => r matches Some((x, y)) && x@ == a && y@ == b,
            None => r is None,
        },
{
    proof {
        seqs::lemma_find(s@, p@, 0);
    }
    let n = s.len();
    match find(s, p) {
        Some(i) => Some((slice_of(s, 0, i), slice_of(s, i + p.len(), s.len()))),
        None => None,
    }
}

// ---------------------------------------------------------------------------
// Trimming
// ---------------------------------------------------------------------------

/// `str::trim`.
pub fn trim(s: &[char]) -> (r: Vec<char>)
    ensures
        r@ == seqs::trim(s@),
{
    let mut a: usize = 0;
    proof {
        assert(s@.skip(0) =~= s@);
    }
    while a < s.len() && is_ws_char(s[a])
        invariant
            a <= s@.len(),
            seqs::trim_start(s@) == seqs::trim_start(s@.skip(a as int)),
        decreases s@.len() - a,
    {
        proof {
            assert(s@.skip(a as int).drop_first() =~= s@.skip(a + 1));
        }
        a += 1;
    }
    let mut b: usize = s.len();
    proof {
        assert(s@.skip(a as int) =~= s@.subrange(a as int, b as int));
    }
    while b > a && is_ws_char(s[b - 1])
        invariant
            a <= b <= s@.len(),
            seqs::trim(s@) == seqs::trim_end(s@.subrange(a as int, b as int)),
        decreases b,
    {
        proof {
            assert(s@.subrange(a as int, b as int).drop_last() =~= s@.subrange(a as int, b - 1));
        }
        b -= 1;
    }
    slice_of(s, a, b)
}

/// `str::trim_matches` with a set of characters.
pub fn strip(s: &[char], set: &[char]) -> (r: Vec<char>)
    ensures
        r@ == seqs::strip(s@, set@),
{
    let mut a: usize = 0;
    proof {
        assert(s@.skip(0) =~= s@);
    }
    while a < s.len() && in_set(s[a], set)
        invariant
            a <= s@.len(),
            seqs::strip_start(s@, set@) == seqs::strip_start(s@.skip(a as int), set@),
        decreases s@.len() - a,
    {
        proof {
            assert(s@.skip(a as int).drop_first() =~= s@.skip(a + 1));
        }
        a += 1;
    }
    let mut b: usize = s.len();
    proof {
        assert(s@.skip(a as int) =~= s@.subrange(a as int, b as int));
    }
    while b > a && in_set(s[b - 1], set)
        invariant
            a <= b <= s@.len(),
            seqs::strip(s@, set@) == seqs::strip_end(s@.subrange(a as int, b as int), set@),
        decreases b,
    {
        proof {
            assert(s@.subrange(a as int, b as int).drop_last() =~= s@.subrange(a as int, b - 1));
        }
        b -= 1;
    }
    slice_of(s, a, b)
}

/// `str::trim_start_matches` with a set of characters.
pub fn strip_start(s: &[char], set: &[char]) -> (r: Vec<char>)
    ensures
        r@ == seqs::strip_start(s@, set@),
{
    let mut a: usize = 0;
    proof {
        assert(s@.skip(0) =~= s@);
    }
    while a < s.len() && in_set(s[a], set)
        invariant
            a <= s@.len(),
            seqs::strip_start(s@, set@) == seqs::strip_start(s@.skip(a as int), set@),
        decreases s@.len() - a,
    {
        proof {
            assert(s@.skip(a as int).drop_first() =~= s@.skip(a + 1));
        }
        a += 1;
    }
    proof {
        assert(s@.skip(a as int) =~= s@.subrange(a as int, s@.len() as int));
    }
    slice_of(s, a, s.len())
}

/// `str::trim_end_matches` with a set of characters.
pub fn strip_end(s: &[char], set: &[char]) -> (r: Vec<char>)
    ensures
        r@ == seqs::strip_end(s@, set@),
{
    let mut b: usize = s.len();
    proof {
        assert(s@ =~= s@.subrange(0, b as int));
    }
    while b > 0 && in_set(s[b - 1], set)
        invariant
            b <= s@.len(),
            seqs::strip_end(s@, set@) == seqs::strip_end(s@.subrange(0, b as int), set@),
        decreases b,
    {
        proof {
            assert(s@.subrange(0, b as int).drop_last() =~= s@.subrange(0, b - 1));
        }
        b -= 1;
    }
    slice_of(s, 0, b)
}


// ---------------------------------------------------------------------------
// Splitting
// ---------------------------------------------------------------------------

/// Appends the characters of `s`.
pub fn push_all(v: &mut Vec<char>, s: &[char])
    ensures
        final(v)@ == old(v)@ + s@,
{
    let mut i: usize = 0;
    while i < s.len()
        invariant
            i <= s@.len(),
            v@ == old(v)@ + s@.take(i as int),
        decreases s@.len() - i,
    {
        v.push(s[i]);
        proof {
            assert(s@.take(i + 1) =~= s@.take(i as int).push(s@[i as int]));
        }
        i += 1;
    }
    proof {
        assert(s@.take(s@.len() as int) =~= s@);
    }
}

/// `str::split` on one character.
pub fn split(s: &[char], c: char) -> (r: Vec<Vec<char>>)
    ensures
        seqs::views(r@) == seqs::split(s@, c),
{
    let mut r: Vec<Vec<char>> = Vec::new();
    let mut a: usize = 0;
    let mut i: usize = 0;
    proof {
        assert(s@.skip(0) =~= s@);
    }
    while i < s.len()
        invariant
            a <= i <= s@.len(),
            forall|k: int| a <= k < i ==> s@[k] != c,
            seqs::split(s@, c) == seqs::views(r@) + seqs::split(s@.skip(a as int), c),
        decreases s@.len() - i,
    {
        if s[i] == c {
            let piece = slice_of(s, a, i);
            proof {
                let t = s@.skip(a as int);
                seqs::lemma_find_any(t, seq![c], 0);
                let j = (i - a) as nat;
                assert forall|k: int| 0 <= k < j implies !seq![c].contains(#[trigger] t[k]) by {
                    assert(t[k] == s@[a + k]);
                    if seq![c].contains(t[k]) {
                        assert(seq![c][0] == c);
                        assert(t[k] == c);
                    }
                }
                assert(t[j as int] == c);
                assert(seq![c][0] == c);
                assert(seq![c].contains(t[j as int]));
                assert(seqs::find_any(t, seq![c]) == Some(j)) by {
                    match seqs::find_any(t, seq![c]) {
                        Some(m) => {
                            if m < j {
                                assert(!seq![c].contains(t[m as int]));
                            } else if m > j {
                                assert(!seq![c].contains(t[j as int]));
                            }
                        },
                        None => {},
                    }
                }
                assert(t.take(j as int) =~= s@.subrange(a as int, i as int));
                assert(t.skip(j + 1 as int) =~= s@.skip(i + 1));
                assert(seqs::views(r@.push(piece)) =~= seqs::views(r@).push(piece@));
            }
            r.push(piece);
            a = i + 1;
        }
        i += 1;
    }
    let last = slice_of(s, a, s.len());
    proof {
        let t = s@.skip(a as int);
        seqs::lemma_find_any(t, seq![c], 0);
        assert forall|k: int| 0 <= k < t.len() implies !seq![c].contains(#[trigger] t[k]) by {
            assert(t[k] == s@[a + k]);
            if seq![c].contains(t[k]) {
                assert(seq![c][0] == c);
            }
        }
        assert(seqs::find_any(t, seq![c]) is None);
        assert(t =~= s@.subrange(a as int, s@.len() as int));
        assert(seqs::views(r@.push(last)) =~= seqs::views(r@).push(last@));
    }
    r.push(last);
    r
}

/// `str::split_whitespace`.
pub fn words(s: &[char]) -> (r: Vec<Vec<char>>)
    ensures
        seqs::views(r@) == seqs::words(s@),
{
    let mut r: Vec<Vec<char>> = Vec::new();
    let mut i: usize = 0;
    proof {
        assert(s@.skip(0) =~= s@);
        assert(seqs::views(r@) =~= Seq::<Seq<char>>::empty());
    }
    while i < s.len()
        invariant
            i <= s@.len(),
            seqs::words(s@) == seqs::views(r@) + seqs::words(s@.skip(i as int)),
        decreases s@.len() - i,
    {
        if is_ws_char(s[i]) {
            proof {
                seqs::lemma_words_skip_ws(s@.skip(i as int));
                assert(s@.skip(i as int).drop_first() =~= s@.skip(i + 1));
            }
            i += 1;
        } else {
            let mut j = i;
            while j < s.len() && !is_ws_char(s[j])
                invariant
                    i <= j <= s@.len(),
                    forall|k: int| i <= k < j ==> !seqs::is_ws(#[trigger] s@[k]),
                decreases s@.len() - j,
            {
                j += 1;
            }
            let w = slice_of(s, i, j);
            proof {
                let t = s@.skip(i as int);
                assert(seqs::trim_start(t) == t);
                seqs::lemma_word_len(t, (j - i) as nat);
                assert(t.take(j - i) =~= s@.subrange(i as int, j as int));
                assert(t.skip(j - i) =~= s@.skip(j as int));
                assert(seqs::views(r@.push(w)) =~= seqs::views(r@).push(w@));
            }
            r.push(w);
            i = j;
        }
    }
    proof {
        assert(s@.skip(i as int) =~= Seq::<char>::empty());
    }
    r
}

/// `str::lines`.
pub fn lines(s: &[char]) -> (r: Vec<Vec<char>>)
    ensures
        seqs::views(r@) == seqs::lines(s@),
{
    let mut r: Vec<Vec<char>> = Vec::new();
    let mut a: usize = 0;
    let mut i: usize = 0;
    proof {
        assert(s@.skip(0) =~= s@);
    }
    while i < s.len()
        invariant
            a <= i <= s@.len(),
            forall|k: int| a <= k < i ==> s@[k] != '\n',
            seqs::lines(s@) == seqs::views(r@) + seqs::lines(s@.skip(a as int)),
        decreases s@.len() - i,
    {
        if s[i] == '\n' {
            let mut b = i;
            if b > a && s[b - 1] == '\r' {
                b -= 1;
            }
            let piece = slice_of(s, a, b);
            proof {
                let t = s@.skip(a as int);
                seqs::lemma_find_any(t, seq!['\n'], 0);
                let j = (i - a) as nat;
                assert forall|k: int| 0 <= k < j implies !seq!['\n'].contains(#[trigger] t[k]) by {
                    assert(t[k] == s@[a + k]);
                    if seq!['\n'].contains(t[k]) {
                        assert(seq!['\n'][0] == '\n');
                    }
                }
                assert(t[j as int] == '\n');
                assert(seq!['\n'][0] == '\n');
                assert(seq!['\n'].contains(t[j as int]));
                assert(seqs::find_any(t, seq!['\n']) == Some(j)) by {
                    match seqs::find_any(t, seq!['\n']) {
                        Some(m) => {
                            if m < j {
                                assert(!seq!['\n'].contains(t[m as int]));
                            } else if m > j {
                                assert(!seq!['\n'].contains(t[j as int]));
                            }
                        },
                        None => {},
                    }
                }
                assert(t.len() > 0);
                let line = t.take(j as int);
                if j > 0 && line.last() == '\r' {
                    assert(line.drop_last() =~= s@.subrange(a as int, b as int));
                } else {
                    assert(line =~= s@.subrange(a as int, b as int));
                }
                assert(t.skip(j + 1 as int) =~= s@.skip(i + 1));
                assert(seqs::views(r@.push(piece)) =~= seqs::views(r@).push(piece@));
            }
            r.push(piece);
            a = i + 1;
        }
        i += 1;
    }
    if a < s.len() {
        let last = slice_of(s, a, s.len());
        proof {
            let t = s@.skip(a as int);
            seqs::lemma_find_any(t, seq!['\n'], 0);
            assert forall|k: int| 0 <= k < t.len() implies !seq!['\n'].contains(#[trigger] t[k]) by {
                assert(t[k] == s@[a + k]);
                if seq!['\n'].contains(t[k]) {
                    assert(seq!['\n'][0] == '\n');
                }
            }
            assert(seqs::find_any(t, seq!['\n']) is None);
            assert(t =~= s@.subrange(a as int, s@.len() as int));
            assert(seqs::views(r@.push(last)) =~= seqs::views(r@).push(last@));
        }
        r.push(last);
    } else {
        proof {
            assert(s@.skip(a as int) =~= Seq::<char>::empty());
        }
    }
    r
}

// ---------------------------------------------------------------------------
// Numbers
// ---------------------------------------------------------------------------

/// Digits only add to a number: once a front of the run is worth more than
/// `max`, so is the whole run.
proof fn lemma_digits_bound(b: Seq<char>, k: nat, max: nat)
    requires
        k <= b.len(),
        seqs::digits_value(b.take(k as int)) > max,
    ensures
        seqs::all_digits(b) ==> seqs::digits_value(b) > max,
    decreases b.len() - k,
{
    if k < b.len() {
        if seqs::all_digits(b) {
            assert(b.take(k + 1 as int) =~= b.take(k as int).push(b[k as int]));
            seqs::lemma_digits_grow(b.take(k as int), b[k as int]);
            lemma_digits_bound(b, k + 1, max);
        }
    } else {
        assert(b.take(k as int) =~= b);
    }
}

/// `str::parse` for an unsigned integer type whose largest value is `max`.
pub fn parse_unsigned(s: &[char], max: u64) -> (r: Option<u64>)
    ensures
        match r {
            Some(n) => seqs::parse_unsigned(s@, max as nat) == Some(n as nat),
            None => seqs::parse_unsigned(s@, max as nat) is None,
        },
{
    let start: usize = if s.len() > 0 && s[0] == '+' { 1 } else { 0 };
    let ghost body = if s@.len() > 0 && s@[0] == '+' { s@.drop_first() } else { s@ };
    proof {
        assert(body =~= s@.skip(start as int));
    }
    if start >= s.len() {
        proof {
            assert(body.len() == 0);
        }
        return None;
    }
    let mut n: u64 = 0;
    let mut i = start;
    proof {
        assert(s@.subrange(start as int, start as int) =~= Seq::<char>::empty());
    }
    while i < s.len()
        invariant
            start <= i <= s@.len(),
            body =~= s@.skip(start as int),
            body == (if s@.len() > 0 && s@[0] == '+' { s@.drop_first() } else { s@ }),
            seqs::all_digits(s@.subrange(start as int, i as int)),
            n as nat == seqs::digits_value(s@.subrange(start as int, i as int)),
            n <= max,
        decreases s@.len() - i,
    {
        let c = s[i];
        let ghost pre = s@.subrange(start as int, i as int);
        proof {
            assert(s@.subrange(start as int, i + 1) =~= pre.push(c));
            seqs::lemma_digits_push(pre, c);
        }
        if !('0' <= c && c <= '9') {
            proof {
                assert(body[i - start] == c);
                assert(!seqs::all_digits(body));
                assert(seqs::parse_unsigned(s@, max as nat) is None);
            }
            return None;
        }
        let d = (c as u32 - '0' as u32) as u64;
        let v: u128 = n as u128 * 10 + d as u128;
        if v > max as u128 {
            proof {
                assert(body.take(i - start + 1) =~= pre.push(c));
                lemma_digits_bound(body, (i - start + 1) as nat, max as nat);
                assert(seqs::parse_unsigned(s@, max as nat) is None);
            }
            return None;
        }
        proof {
            assert forall|k: int| 0 <= k < pre.push(c).len() implies seqs::is_digit(
                #[trigger] pre.push(c)[k],
            ) by {
                if k < pre.len() {
                    assert(pre.push(c)[k] == pre[k]);
                }
            }
        }
        n = v as u64;
        i += 1;
    }
    proof {
        assert(s@.subrange(start as int, s@.len() as int) =~= body);
    }
    Some(n)
}


/// `str::parse::<i64>`.
pub fn parse_i64(s: &[char]) -> (r: Option<i64>)
    ensures
        match r {
            Some(n) => seqs::parse_i64(s@) == Some(n as int),
            None => seqs::parse_i64(s@) is None,
        },
{
    if s.len() > 0 && s[0] == '-' {
        let body = slice_of(s, 1, s.len());
        if body.len() > 0 && body[0] == '+' {
            proof {
                assert(!seqs::is_digit(body@[0]));
            }
            return None;
        }
        proof {
            assert(body@ =~= s@.drop_first());
            assert(seqs::parse_unsigned(body@, 0x8000_0000_0000_0000nat) == (if body@.len() > 0
                && seqs::all_digits(body@) && seqs::digits_value(body@) <= 0x8000_0000_0000_0000 {
                Some(seqs::digits_value(body@))
            } else {
                None
            }));
        }
        match parse_unsigned(body.as_slice(), 0x8000_0000_0000_0000u64) {
            Some(n) => {
                if n == 0x8000_0000_0000_0000u64 {
                    Some(i64::MIN)
                } else {
                    Some(-(n as i64))
                }
            },
            None => None,
        }
    } else {
        match parse_unsigned(s, 0x7fff_ffff_ffff_ffffu64) {
            Some(n) => Some(n as i64),
            None => None,
        }
    }
}

/// The digit character for `d`.
fn digit_char(d: u64) -> (c: char)
    requires
        d < 10,
    ensures
        c == seqs::digit_char(d as nat),
{
    if d == 0 { '0' } else if d == 1 { '1' } else if d == 2 { '2' } else if d == 3 { '3' }
    else if d == 4 { '4' } else if d == 5 { '5' } else if d == 6 { '6' } else if d == 7 { '7' }
    else if d == 8 { '8' } else { '9' }
}

/// `n` in decimal.
pub fn decimal(n: u64) -> (r: Vec<char>)
    ensures
        r@ == seqs::decimal(n as nat),
    decreases n,
{
    if n < 10 {
        let mut v = Vec::new();
        v.push(digit_char(n));
        proof {
            assert(v@ =~= seq![seqs::digit_char(n as nat)]);
        }
        v
    } else {
        let mut v = decimal(n / 10);
        v.push(digit_char(n % 10));
        v
    }
}

/// Appends `k` zeros.
fn push_zeros(v: &mut Vec<char>, k: usize)
    ensures
        final(v)@ == old(v)@ + seqs::zeros(k as int),
{
    let mut i: usize = 0;
    while i < k
        invariant
            i <= k,
            v@ == old(v)@ + seqs::zeros(i as int),
        decreases k - i,
    {
        v.push('0');
        proof {
            assert(seqs::zeros(i + 1) =~= seqs::zeros(i as int).push('0'));
        }
        i += 1;
    }
}

/// `format!("{n:0width$}")`.
pub fn padded(n: i64, width: usize) -> (r: Vec<char>)
    ensures
        r@ == seqs::padded(n as int, width as nat),
{
    let mut r: Vec<char> = Vec::new();
    if n >= 0 {
        let d = decimal(n as u64);
        if width > d.len() {
            push_zeros(&mut r, width - d.len());
        } else {
            proof {
                assert(seqs::zeros(width - d@.len()) =~= Seq::<char>::empty());
            }
        }
        push_all(&mut r, d.as_slice());
        proof {
            assert(r@ =~= seqs::padded(n as int, width as nat));
        }
    } else {
        let m: u64 = if n == i64::MIN { 0x8000_0000_0000_0000u64 } else { (-n) as u64 };
        let d = decimal(m);
        r.push('-');
        if width > 0 && width - 1 > d.len() {
            push_zeros(&mut r, width - d.len() - 1);
        } else {
            proof {
                assert(seqs::zeros(width - 1 - d@.len()) =~= Seq::<char>::empty());
            }
        }
        push_all(&mut r, d.as_slice());
        proof {
            assert(r@ =~= seqs::padded(n as int, width as nat));
        }
    }
    r
}


/// How many bytes UTF-8 spends on the text: `str::len`.
pub fn utf8_len(s: &[char]) -> (r: usize)
    requires
        seqs::utf8_len(s@) <= usize::MAX,
    ensures
        r == seqs::utf8_len(s@),
{
    let mut n: usize = 0;
    let mut i: usize = 0;
    proof {
        assert(s@.take(0) =~= Seq::<char>::empty());
    }
    while i < s.len()
        invariant
            i <= s@.len(),
            n == seqs::utf8_len(s@.take(i as int)),
            seqs::utf8_len(s@) <= usize::MAX,
        decreases s@.len() - i,
    {
        let c = s[i];
        proof {
            assert(s@.take(i + 1).drop_last() =~= s@.take(i as int));
            lemma_utf8_len_prefix(s@, (i + 1) as nat);
        }
        let w: usize = if (c as u32) < 0x80 { 1 } else if (c as u32) < 0x800 { 2 } else if (c as u32) < 0x10000 { 3 } else { 4 };
        n = n + w;
        i += 1;
    }
    proof {
        assert(s@.take(s@.len() as int) =~= s@);
    }
    n
}

pub proof fn lemma_utf8_len_prefix(s: Seq<char>, k: nat)
    requires
        k <= s.len(),
    ensures
        seqs::utf8_len(s.take(k as int)) <= seqs::utf8_len(s),
    decreases s.len() - k,
{
    if k < s.len() {
        lemma_utf8_len_prefix(s, k + 1);
        assert(s.take(k + 1 as int).drop_last() =~= s.take(k as int));
    } else {
        assert(s.take(k as int) =~= s);
    }
}

/// `s` with every `from` replaced by `to`.
pub fn replace_char(s: &[char], from: char, to: char) -> (r: Vec<char>)
    ensures
        r@ == seqs::replace_char(s@, from, to),
{
    let mut r: Vec<char> = Vec::new();
    let mut i: usize = 0;
    while i < s.len()
        invariant
            i <= s@.len(),
            r@ =~= seqs::replace_char(s@.take(i as int), from, to),
        decreases s@.len() - i,
    {
        r.push(if s[i] == from { to } else { s[i] });
        proof {
            assert(s@.take(i + 1 as int) =~= s@.take(i as int).push(s@[i as int]));
        }
        i += 1;
    }
    proof {
        assert(s@.take(s@.len() as int) =~= s@);
    }
    r
}


/// The one-character text `c`.
pub fn one(c: char) -> (r: Vec<char>)
    ensures
        r@ == seq![c],
{
    let mut r = Vec::new();
    r.push(c);
    proof {
        assert(r@ =~= seq![c]);
    }
    r
}

/// The two-character text `a b`.
pub fn two(a: char, b: char) -> (r: Vec<char>)
    ensures
        r@ == seq![a, b],
{
    let mut r = Vec::new();
    r.push(a);
    r.push(b);
    proof {
        assert(r@ =~= seq![a, b]);
    }
    r
}

/// `char::to_ascii_lowercase`.
pub fn lower_char(c: char) -> (r: char)
    ensures
        r == seqs::ascii_lower(c),
{
    if 'A' <= c && c <= 'Z' {
        let b: u8 = c as u8;
        proof {
            assert(b as u32 == c as u32);
        }
        ((b + 32) as char)
    } else {
        c
    }
}

/// `str::to_ascii_lowercase`.
pub fn lower_ascii(s: &[char]) -> (r: Vec<char>)
    ensures
        r@ == s@.map_values(|c: char| seqs::ascii_lower(c)),
{
    let mut r: Vec<char> = Vec::new();
    let mut i: usize = 0;
    while i < s.len()
        invariant
            i <= s@.len(),
            r@ == s@.take(i as int).map_values(|c: char| seqs::ascii_lower(c)),
        decreases s@.len() - i,
    {
        r.push(lower_char(s[i]));
        proof {
            assert(s@.take(i + 1).map_values(|c: char| seqs::ascii_lower(c)) =~= s@.take(i as int).map_values(
                |c: char| seqs::ascii_lower(c),
            ).push(seqs::ascii_lower(s@[i as int])));
        }
        i += 1;
    }
    proof {
        assert(s@.take(s@.len() as int) =~= s@);
    }
    r
}

} // verus!
