//! One line of text being typed into, edited in place with the bindings a
//! terminal has trained everybody to expect: readline's.
use vstd::prelude::*;

use crate::seqs;
use crate::text;

verus! {

/// A key, as far as a text field cares.
#[derive(Debug, Clone, Copy, PartialEq, Eq)]
pub enum Key {
    Char(char),
    Enter,
    Esc,
    Tab,
    /// Shift-Tab.
    BackTab,
    Up,
    Down,
    Left,
    Right,
    Home,
    End,
    Backspace,
    Delete,
    /// Anything else: function keys, page keys.
    Other,
}

/// The chord modifiers held with a key. Shift is how a capital arrives, so
/// it is not one of them.
#[derive(Debug, Clone, Copy, PartialEq, Eq, Default)]
pub struct Mods {
    pub ctrl: bool,
    pub alt: bool,
}

// ---------------------------------------------------------------------------
// Positions
// ---------------------------------------------------------------------------

/// How many whole characters fit in the first `a` bytes.
pub open spec fn chars_within(t: Seq<char>, a: int) -> nat
    decreases t.len(),
{
    if t.len() == 0 || seqs::utf8_width(t[0]) > a {
        0
    } else {
        1 + chars_within(t.drop_first(), a - seqs::utf8_width(t[0]))
    }
}

/// A byte position that lands on a character boundary, or past the end.
pub open spec fn at_boundary(t: Seq<char>, a: int) -> bool {
    a >= seqs::utf8_len(t) || seqs::utf8_len(t.take(chars_within(t, a) as int)) == a
}

/// Walks back from `k` while the character behind is alphanumeric (or,
/// with `alnum` false, while it is not).
pub open spec fn back_while_alnum(t: Seq<char>, k: int, alnum: bool) -> int
    decreases k,
{
    if k > 0 && k <= t.len() && text::alphanumeric(t[k - 1]) == alnum {
        back_while_alnum(t, k - 1, alnum)
    } else {
        k
    }
}

/// Walks forward from `k` while the character ahead is alphanumeric (or,
/// with `alnum` false, while it is not).
pub open spec fn forward_while_alnum(t: Seq<char>, k: int, alnum: bool) -> int
    decreases t.len() - k,
{
    if 0 <= k < t.len() && text::alphanumeric(t[k]) == alnum {
        forward_while_alnum(t, k + 1, alnum)
    } else {
        k
    }
}

/// Walks back from `k` while the character behind is whitespace (or, with
/// `ws` false, while it is not).
pub open spec fn back_while_ws(t: Seq<char>, k: int, ws: bool) -> int
    decreases k,
{
    if k > 0 && k <= t.len() && seqs::is_ws(t[k - 1]) == ws {
        back_while_ws(t, k - 1, ws)
    } else {
        k
    }
}

/// The start of the word behind the caret: over any separators first, then
/// over the word itself, so a second press keeps going.
pub open spec fn word_start(t: Seq<char>, k: int) -> int {
    back_while_alnum(t, back_while_alnum(t, k, false), true)
}

/// The end of the word ahead of the caret.
pub open spec fn word_end(t: Seq<char>, k: int) -> int {
    forward_while_alnum(t, forward_while_alnum(t, k, false), true)
}

/// The start of the whitespace-delimited word behind the caret.
pub open spec fn space_start(t: Seq<char>, k: int) -> int {
    back_while_ws(t, back_while_ws(t, k, true), false)
}

/// One character back, or the start.
pub open spec fn back_one(k: int) -> int {
    if k > 0 {
        k - 1
    } else {
        0
    }
}

/// One character forward, or the end.
pub open spec fn forward_one(t: Seq<char>, k: int) -> int {
    if k < t.len() {
        k + 1
    } else {
        k
    }
}

/// Everything but `from..to`.
pub open spec fn cut_out(t: Seq<char>, from: int, to: int) -> Seq<char> {
    t.take(from) + t.skip(to)
}

/// What a key does to the text and its caret (a character position), or
/// nothing when the key means nothing here: that is how a caller gets Enter,
/// Esc and Tab back to do its own thing with.
pub open spec fn key_effect(t: Seq<char>, k: int, key: Key, mods: Mods) -> Option<(Seq<char>, int)> {
    let chord = mods.ctrl || mods.alt;
    match key {
        Key::Char(c) => if !chord {
            Some((t.take(k) + seq![c] + t.skip(k), k + 1))
        } else if mods.ctrl && c == 'a' {
            Some((t, 0))
        } else if mods.ctrl && c == 'e' {
            Some((t, t.len() as int))
        } else if mods.ctrl && c == 'w' {
            Some((cut_out(t, space_start(t, k), k), space_start(t, k)))
        } else if mods.ctrl && c == 'u' {
            Some((cut_out(t, 0, k), 0))
        } else if mods.ctrl && c == 'k' {
            Some((t.take(k), k))
        } else {
            None
        },
        Key::Left => if chord {
            Some((t, word_start(t, k)))
        } else {
            Some((t, back_one(k)))
        },
        Key::Right => if chord {
            Some((t, word_end(t, k)))
        } else {
            Some((t, forward_one(t, k)))
        },
        Key::Home => Some((t, 0)),
        Key::End => Some((t, t.len() as int)),
        Key::Backspace => if chord {
            Some((cut_out(t, word_start(t, k), k), word_start(t, k)))
        } else {
            Some((cut_out(t, back_one(k), k), back_one(k)))
        },
        Key::Delete => if chord {
            Some((cut_out(t, k, word_end(t, k)), k))
        } else {
            Some((cut_out(t, k, forward_one(t, k)), k))
        },
        _ => None,
    }
}

/// What typing a key into a field does, with the caret as a byte position:
/// whether the field took the key, the text after it, and the caret after
/// it. A text too long to grow takes no keys.
pub open spec fn typed_into(t: Seq<char>, at: int, key: Key, mods: Mods) -> (bool, Seq<char>, int) {
    if seqs::utf8_len(t) + 4 > usize::MAX {
        (false, t, at)
    } else {
        let k = chars_within(t, at) as int;
        match key_effect(t, k, key, mods) {
            Some((t2, k2)) => (true, t2, seqs::utf8_len(t2.take(k2)) as int),
            None => (false, t, seqs::utf8_len(t.take(k)) as int),
        }
    }
}

// ---------------------------------------------------------------------------
// Lemmas
// ---------------------------------------------------------------------------

proof fn lemma_back_alnum(t: Seq<char>, k: int, alnum: bool)
    requires
        0 <= k <= t.len(),
    ensures
        0 <= back_while_alnum(t, k, alnum) <= k,
    decreases k,
{
    if k > 0 && text::alphanumeric(t[k - 1]) == alnum {
        lemma_back_alnum(t, k - 1, alnum);
    }
}

proof fn lemma_forward_alnum(t: Seq<char>, k: int, alnum: bool)
    requires
        0 <= k <= t.len(),
    ensures
        k <= forward_while_alnum(t, k, alnum) <= t.len(),
    decreases t.len() - k,
{
    if k < t.len() && text::alphanumeric(t[k]) == alnum {
        lemma_forward_alnum(t, k + 1, alnum);
    }
}

proof fn lemma_back_ws(t: Seq<char>, k: int, ws: bool)
    requires
        0 <= k <= t.len(),
    ensures
        0 <= back_while_ws(t, k, ws) <= k,
    decreases k,
{
    if k > 0 && seqs::is_ws(t[k - 1]) == ws {
        lemma_back_ws(t, k - 1, ws);
    }
}

proof fn lemma_word_bounds(t: Seq<char>, k: int)
    requires
        0 <= k <= t.len(),
    ensures
        0 <= word_start(t, k) <= k,
        k <= word_end(t, k) <= t.len(),
        0 <= space_start(t, k) <= k,
{
    lemma_back_alnum(t, k, false);
    lemma_back_alnum(t, back_while_alnum(t, k, false), true);
    lemma_forward_alnum(t, k, false);
    lemma_forward_alnum(t, forward_while_alnum(t, k, false), true);
    lemma_back_ws(t, k, true);
    lemma_back_ws(t, back_while_ws(t, k, true), false);
}

proof fn lemma_chars_within(t: Seq<char>, a: int)
    ensures
        chars_within(t, a) <= t.len(),
        a >= 0 ==> seqs::utf8_len(t.take(chars_within(t, a) as int)) <= a,
    decreases t.len(),
{
    if t.len() > 0 && seqs::utf8_width(t[0]) <= a {
        lemma_chars_within(t.drop_first(), a - seqs::utf8_width(t[0]));
        lemma_utf8_front(t.take(chars_within(t, a) as int));
        assert(t.take(chars_within(t, a) as int).drop_first() =~= t.drop_first().take(
            chars_within(t.drop_first(), a - seqs::utf8_width(t[0])) as int,
        ));
    } else {
        assert(t.take(0) =~= Seq::<char>::empty());
    }
}

/// The byte length of a text, counted from the front.
proof fn lemma_utf8_front(s: Seq<char>)
    requires
        s.len() > 0,
    ensures
        seqs::utf8_len(s) == seqs::utf8_width(s[0]) + seqs::utf8_len(s.drop_first()),
    decreases s.len(),
{
    if s.len() == 1 {
        assert(s.drop_last() =~= Seq::<char>::empty());
        assert(s.drop_first() =~= Seq::<char>::empty());
    } else {
        lemma_utf8_front(s.drop_last());
        assert(s.drop_last().drop_first() =~= s.drop_first().drop_last());
        assert(s.drop_first().last() == s.last());
    }
}

/// Whatever a key does, the caret stays inside the text, which is what
/// keeps its byte position on a character boundary.
pub proof fn law_caret_stays_inside(t: Seq<char>, k: int, key: Key, mods: Mods)
    requires
        0 <= k <= t.len(),
    ensures
        key_effect(t, k, key, mods) matches Some((t2, k2)) ==> 0 <= k2 <= t2.len(),
{
    lemma_word_bounds(t, k);
}

// ---------------------------------------------------------------------------
// Executable
// ---------------------------------------------------------------------------

/// The character position a byte position stands for.
fn char_pos(t: &[char], at: usize) -> (k: usize)
    ensures
        k == chars_within(t@, at as int),
{
    let mut k: usize = 0;
    let mut left: usize = at;
    proof {
        assert(t@.skip(0) =~= t@);
    }
    while k < t.len()
        invariant
            k <= t@.len(),
            chars_within(t@, at as int) == k + chars_within(t@.skip(k as int), left as int),
        decreases t@.len() - k,
    {
        let c = t[k];
        let w: usize = if (c as u32) < 0x80 {
            1
        } else if (c as u32) < 0x800 {
            2
        } else if (c as u32) < 0x10000 {
            3
        } else {
            4
        };
        proof {
            assert(w == seqs::utf8_width(c));
            assert(t@.skip(k as int)[0] == c);
            assert(t@.skip(k as int).drop_first() =~= t@.skip(k + 1));
        }
        if w > left {
            return k;
        }
        left = left - w;
        k += 1;
    }
    proof {
        assert(t@.skip(k as int) =~= Seq::<char>::empty());
    }
    k
}

fn back_alnum(t: &[char], k: usize, alnum: bool) -> (r: usize)
    requires
        k <= t@.len(),
    ensures
        r == back_while_alnum(t@, k as int, alnum),
{
    let mut i = k;
    while i > 0 && text::is_alphanumeric(t[i - 1]) == alnum
        invariant
            i <= k <= t@.len(),
            back_while_alnum(t@, k as int, alnum) == back_while_alnum(t@, i as int, alnum),
        decreases i,
    {
        i -= 1;
    }
    i
}

fn forward_alnum(t: &[char], k: usize, alnum: bool) -> (r: usize)
    requires
        k <= t@.len(),
    ensures
        r == forward_while_alnum(t@, k as int, alnum),
{
    let mut i = k;
    while i < t.len() && text::is_alphanumeric(t[i]) == alnum
        invariant
            k <= i <= t@.len(),
            forward_while_alnum(t@, k as int, alnum) == forward_while_alnum(t@, i as int, alnum),
        decreases t@.len() - i,
    {
        i += 1;
    }
    i
}

fn back_ws(t: &[char], k: usize, ws: bool) -> (r: usize)
    requires
        k <= t@.len(),
    ensures
        r == back_while_ws(t@, k as int, ws),
{
    let mut i = k;
    while i > 0 && text::is_ws_char(t[i - 1]) == ws
        invariant
            i <= k <= t@.len(),
            back_while_ws(t@, k as int, ws) == back_while_ws(t@, i as int, ws),
        decreases i,
    {
        i -= 1;
    }
    i
}

/// `t` without `from..to`.
fn without(t: &[char], from: usize, to: usize) -> (r: Vec<char>)
    requires
        from <= to <= t@.len(),
    ensures
        r@ == cut_out(t@, from as int, to as int),
{
    let mut r = text::slice_of(t, 0, from);
    text::push_all(&mut r, text::slice_of(t, to, t.len()).as_slice());
    proof {
        assert(r@ =~= cut_out(t@, from as int, to as int));
    }
    r
}

/// What a key does to the text and its caret, as characters.
fn effect(t: &[char], k: usize, key: Key, mods: Mods) -> (r: Option<(Vec<char>, usize)>)
    requires
        k <= t@.len(),
        t@.len() < usize::MAX,
    ensures
        match key_effect(t@, k as int, key, mods) {
            Some((t2, k2)) => r matches Some((u, j)) && u@ == t2 && j == k2,
            None => r is None,
        },
{
    proof {
        lemma_word_bounds(t@, k as int);
    }
    let n = t.len();
    let chord = mods.ctrl || mods.alt;
    let all = text::slice_of(t, 0, n);
    proof {
        assert(all@ =~= t@);
    }
    match key {
        Key::Char(c) => if !chord {
            let mut u = text::slice_of(t, 0, k);
            u.push(c);
            text::push_all(&mut u, text::slice_of(t, k, n).as_slice());
            proof {
                assert(u@ =~= t@.take(k as int) + seq![c] + t@.skip(k as int));
            }
            Some((u, k + 1))
        } else if mods.ctrl && c == 'a' {
            Some((all, 0))
        } else if mods.ctrl && c == 'e' {
            Some((all, n))
        } else if mods.ctrl && c == 'w' {
            let s = back_ws(t, back_ws(t, k, true), false);
            Some((without(t, s, k), s))
        } else if mods.ctrl && c == 'u' {
            Some((without(t, 0, k), 0))
        } else if mods.ctrl && c == 'k' {
            Some((text::slice_of(t, 0, k), k))
        } else {
            None
        },
        Key::Left => if chord {
            Some((all, back_alnum(t, back_alnum(t, k, false), true)))
        } else {
            Some((all, if k > 0 { k - 1 } else { 0 }))
        },
        Key::Right => if chord {
            Some((all, forward_alnum(t, forward_alnum(t, k, false), true)))
        } else {
            Some((all, if k < n { k + 1 } else { k }))
        },
        Key::Home => Some((all, 0)),
        Key::End => Some((all, n)),
        Key::Backspace => if chord {
            let s = back_alnum(t, back_alnum(t, k, false), true);
            Some((without(t, s, k), s))
        } else {
            let s = if k > 0 { k - 1 } else { 0 };
            Some((without(t, s, k), s))
        },
        Key::Delete => if chord {
            let e = forward_alnum(t, forward_alnum(t, k, false), true);
            Some((without(t, k, e), k))
        } else {
            let e = if k < n { k + 1 } else { k };
            Some((without(t, k, e), k))
        },
        _ => None,
    }
}

/// The text takes at most `limit` bytes.
fn fits(s: &[char], limit: usize) -> (r: bool)
    ensures
        r == (seqs::utf8_len(s@) <= limit),
{
    let mut m: usize = 0;
    let mut i: usize = 0;
    proof {
        assert(s@.take(0) =~= Seq::<char>::empty());
    }
    while i < s.len()
        invariant
            i <= s@.len(),
            m == seqs::utf8_len(s@.take(i as int)),
            m <= limit,
        decreases s@.len() - i,
    {
        let c = s[i];
        let w: usize = if (c as u32) < 0x80 {
            1
        } else if (c as u32) < 0x800 {
            2
        } else if (c as u32) < 0x10000 {
            3
        } else {
            4
        };
        proof {
            assert(s@.take(i + 1).drop_last() =~= s@.take(i as int));
            assert(w == seqs::utf8_width(c));
        }
        if w > limit - m {
            proof {
                text::lemma_utf8_len_prefix(s@, (i + 1) as nat);
            }
            return false;
        }
        m = m + w;
        i += 1;
    }
    proof {
        assert(s@.take(s@.len() as int) =~= s@);
    }
    true
}

/// The bytes of the first `k` characters.
fn bytes_before(t: &[char], k: usize) -> (r: usize)
    requires
        k <= t@.len(),
        seqs::utf8_len(t@) <= usize::MAX,
    ensures
        r == seqs::utf8_len(t@.take(k as int)),
{
    let front = text::slice_of(t, 0, k);
    proof {
        text::lemma_utf8_len_prefix(t@, k as nat);
        assert(front@ =~= t@.take(k as int));
    }
    text::utf8_len(front.as_slice())
}

/// One key typed into a field: `text` is what is typed, `at` the caret as a
/// byte position on a character boundary (`usize::MAX` is how a field says
/// "start at the end"; a position inside a character counts as the boundary
/// before it). Returns false when the key means nothing here, which hands
/// Enter, Esc and Tab back to the caller.
pub fn key(text: &mut String, at: &mut usize, pressed: Key, mods: Mods) -> (r: bool)
    ensures
        (r, final(text)@, *final(at) as int) == typed_into(old(text)@, *old(at) as int, pressed, mods),
{
    let t = text::chars_of(text.as_str());
    // A text this long cannot be held in memory; a field that somehow had
    // one would take no more keys rather than overflow its caret.
    if !fits(t.as_slice(), usize::MAX - 4) {
        return false;
    }
    let k = char_pos(t.as_slice(), *at);
    proof {
        lemma_chars_within(t@, *at as int);
        lemma_word_bounds(t@, k as int);
        lemma_utf8_at_least(t@);
    }
    match effect(t.as_slice(), k, pressed, mods) {
        Some((u, j)) => {
            proof {
                law_caret_stays_inside(t@, k as int, pressed, mods);
                utf8_len_bound(t@, u@, k as int, pressed, mods);
            }
            *at = bytes_before(u.as_slice(), j);
            *text = text::string_of(u.as_slice());
            true
        },
        None => {
            *at = bytes_before(t.as_slice(), k);
            false
        },
    }
}

/// Every character takes at least one byte.
proof fn lemma_utf8_at_least(s: Seq<char>)
    ensures
        seqs::utf8_len(s) >= s.len(),
    decreases s.len(),
{
    if s.len() > 0 {
        lemma_utf8_at_least(s.drop_last());
    }
}

/// Byte lengths add up.
proof fn lemma_utf8_concat(a: Seq<char>, b: Seq<char>)
    ensures
        seqs::utf8_len(a + b) == seqs::utf8_len(a) + seqs::utf8_len(b),
    decreases b.len(),
{
    if b.len() > 0 {
        lemma_utf8_concat(a, b.drop_last());
        assert((a + b).drop_last() =~= a + b.drop_last());
        assert((a + b).last() == b.last());
    } else {
        assert(a + b =~= a);
    }
}

/// Cutting a run out never lengthens a text.
proof fn lemma_utf8_cut(t: Seq<char>, from: int, to: int)
    requires
        0 <= from <= to <= t.len(),
    ensures
        seqs::utf8_len(cut_out(t, from, to)) <= seqs::utf8_len(t),
        seqs::utf8_len(t.take(from)) <= seqs::utf8_len(t),
{
    lemma_utf8_concat(t.take(from), t.skip(from));
    assert(t.take(from) + t.skip(from) =~= t);
    lemma_utf8_concat(t.subrange(from, to), t.skip(to));
    assert(t.subrange(from, to) + t.skip(to) =~= t.skip(from));
    lemma_utf8_concat(t.take(from), t.skip(to));
}

/// Inserting one character adds its bytes.
proof fn lemma_utf8_insert(t: Seq<char>, k: int, c: char)
    requires
        0 <= k <= t.len(),
    ensures
        seqs::utf8_len(t.take(k) + seq![c] + t.skip(k)) <= seqs::utf8_len(t) + 4,
{
    lemma_utf8_concat(t.take(k), t.skip(k));
    assert(t.take(k) + t.skip(k) =~= t);
    lemma_utf8_concat(t.take(k) + seq![c], t.skip(k));
    lemma_utf8_concat(t.take(k), seq![c]);
    assert(seq![c].drop_last() =~= Seq::<char>::empty());
    assert(seq![c].last() == c);
    assert(seqs::utf8_len(Seq::<char>::empty()) == 0);
    assert(seqs::utf8_len(seq![c]) == seqs::utf8_width(c));
}

/// Each key adds at most one character, so the text still fits.
proof fn utf8_len_bound(t: Seq<char>, u: Seq<char>, k: int, key: Key, mods: Mods)
    requires
        0 <= k <= t.len(),
        key_effect(t, k, key, mods) matches Some((t2, _)) && t2 == u,
    ensures
        seqs::utf8_len(u) <= seqs::utf8_len(t) + 4,
{
    lemma_word_bounds(t, k);
    lemma_utf8_cut(t, space_start(t, k), k);
    lemma_utf8_cut(t, word_start(t, k), k);
    lemma_utf8_cut(t, back_one(k), k);
    lemma_utf8_cut(t, k, word_end(t, k));
    lemma_utf8_cut(t, k, forward_one(t, k));
    lemma_utf8_cut(t, 0, k);
    lemma_utf8_cut(t, k, k);
    match key {
        Key::Char(c) => {
            lemma_utf8_insert(t, k, c);
        },
        _ => {},
    }
}

/// The text as it is drawn, with the caret where the next character lands.
pub fn caret(text: &str, at: usize) -> (r: String)
    requires
        at_boundary(text@, at as int),
    ensures
        r@ == text@.take(chars_within(text@, at as int) as int) + seq!['\u{258F}'] + text@.skip(
            chars_within(text@, at as int) as int,
        ),
{
    let t = text::chars_of(text);
    let k = char_pos(t.as_slice(), at);
    proof {
        lemma_chars_within(t@, at as int);
    }
    let n = t.len();
    let mut v = text::slice_of(t.as_slice(), 0, k);
    v.push('\u{258F}');
    text::push_all(&mut v, text::slice_of(t.as_slice(), k, n).as_slice());
    proof {
        assert(v@ =~= t@.take(k as int) + seq!['\u{258F}'] + t@.skip(k as int));
    }
    text::string_of(v.as_slice())
}

} // verus!
