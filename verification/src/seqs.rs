//! Text as sequences of characters: what every parser in the crate is
//! stated over, and the facts about it the proofs lean on.
use vstd::prelude::*;

verus! {

// ---------------------------------------------------------------------------
// Specifications
// ---------------------------------------------------------------------------

/// Unicode `White_Space`, the property `char::is_whitespace` and `str::trim`
/// go by.
pub open spec fn is_ws(c: char) -> bool {
    ||| ('\t' <= c && c <= '\r')
    ||| c == ' '
    ||| c == '\u{85}'
    ||| c == '\u{A0}'
    ||| c == '\u{1680}'
    ||| ('\u{2000}' <= c && c <= '\u{200A}')
    ||| c == '\u{2028}'
    ||| c == '\u{2029}'
    ||| c == '\u{202F}'
    ||| c == '\u{205F}'
    ||| c == '\u{3000}'
}

/// `s` without the whitespace at its front.
pub open spec fn trim_start(s: Seq<char>) -> Seq<char>
    decreases s.len(),
{
    if s.len() > 0 && is_ws(s[0]) {
        trim_start(s.drop_first())
    } else {
        s
    }
}

/// `s` without the whitespace at its back.
pub open spec fn trim_end(s: Seq<char>) -> Seq<char>
    decreases s.len(),
{
    if s.len() > 0 && is_ws(s.last()) {
        trim_end(s.drop_last())
    } else {
        s
    }
}

/// `str::trim`.
pub open spec fn trim(s: Seq<char>) -> Seq<char> {
    trim_end(trim_start(s))
}

/// `s` without any of the characters in `set` at its front.
pub open spec fn strip_start(s: Seq<char>, set: Seq<char>) -> Seq<char>
    decreases s.len(),
{
    if s.len() > 0 && set.contains(s[0]) {
        strip_start(s.drop_first(), set)
    } else {
        s
    }
}

/// `s` without any of the characters in `set` at its back.
pub open spec fn strip_end(s: Seq<char>, set: Seq<char>) -> Seq<char>
    decreases s.len(),
{
    if s.len() > 0 && set.contains(s.last()) {
        strip_end(s.drop_last(), set)
    } else {
        s
    }
}

/// `str::trim_matches` with a set of characters.
pub open spec fn strip(s: Seq<char>, set: Seq<char>) -> Seq<char> {
    strip_end(strip_start(s, set), set)
}

/// `p` stands in `s` at position `i`.
pub open spec fn occurs_at(s: Seq<char>, p: Seq<char>, i: int) -> bool {
    0 <= i && i + p.len() <= s.len() && s.subrange(i, i + p.len()) == p
}

/// The first position at or after `i` where `p` stands in `s`.
pub open spec fn find_from(s: Seq<char>, p: Seq<char>, i: nat) -> Option<nat>
    decreases s.len() - i,
{
    if i + p.len() > s.len() {
        None
    } else if p.len() == 0 {
        Some(i)
    } else if occurs_at(s, p, i as int) {
        Some(i)
    } else {
        find_from(s, p, i + 1)
    }
}

/// `str::find` with a string pattern.
pub open spec fn find(s: Seq<char>, p: Seq<char>) -> Option<nat> {
    find_from(s, p, 0)
}

/// `str::contains` with a string pattern.
pub open spec fn contains(s: Seq<char>, p: Seq<char>) -> bool {
    find(s, p) is Some
}

/// `str::starts_with`.
pub open spec fn starts_with(s: Seq<char>, p: Seq<char>) -> bool {
    p.len() <= s.len() && s.subrange(0, p.len() as int) == p
}

/// `str::ends_with`.
pub open spec fn ends_with(s: Seq<char>, p: Seq<char>) -> bool {
    p.len() <= s.len() && s.subrange(s.len() - p.len(), s.len() as int) == p
}

/// `str::split_once` with a string pattern.
pub open spec fn split_once(s: Seq<char>, p: Seq<char>) -> Option<(Seq<char>, Seq<char>)> {
    match find(s, p) {
        Some(i) => Some((s.take(i as int), s.skip((i + p.len()) as int))),
        None => None,
    }
}

/// The first position at or after `i` holding a character of `set`.
pub open spec fn find_any_from(s: Seq<char>, set: Seq<char>, i: nat) -> Option<nat>
    decreases s.len() - i,
{
    if i >= s.len() {
        None
    } else if set.contains(s[i as int]) {
        Some(i)
    } else {
        find_any_from(s, set, i + 1)
    }
}

/// `str::find` with a set of characters.
pub open spec fn find_any(s: Seq<char>, set: Seq<char>) -> Option<nat> {
    find_any_from(s, set, 0)
}

/// What comes before the first character of `set`: `s.split(set).next()`.
pub open spec fn before_any(s: Seq<char>, set: Seq<char>) -> Seq<char> {
    match find_any(s, set) {
        Some(i) => s.take(i as int),
        None => s,
    }
}

/// The last position holding a character of `set`, searching below `i`.
pub open spec fn rfind_any_below(s: Seq<char>, set: Seq<char>, i: int) -> Option<nat>
    decreases i,
{
    if i <= 0 {
        None
    } else if set.contains(s[i - 1]) {
        Some((i - 1) as nat)
    } else {
        rfind_any_below(s, set, i - 1)
    }
}

/// `str::rfind` with a set of characters.
pub open spec fn rfind_any(s: Seq<char>, set: Seq<char>) -> Option<nat> {
    rfind_any_below(s, set, s.len() as int)
}

/// `str::split` on one character: every piece, empty ones included.
pub open spec fn split(s: Seq<char>, c: char) -> Seq<Seq<char>>
    decreases s.len(),
{
    match find_any(s, seq![c]) {
        Some(i) => {
            proof {
                lemma_find_any(s, seq![c], 0);
            }
            seq![s.take(i as int)] + split(s.skip(i + 1 as int), c)
        },
        None => seq![s],
    }
}

/// The length of the run of non-whitespace at the front of `s`.
pub open spec fn word_len(s: Seq<char>) -> nat
    decreases s.len(),
{
    if s.len() == 0 || is_ws(s[0]) {
        0
    } else {
        1 + word_len(s.drop_first())
    }
}

/// `str::split_whitespace`.
pub open spec fn words(s: Seq<char>) -> Seq<Seq<char>>
    decreases s.len(),
{
    let t = trim_start(s);
    if t.len() == 0 {
        seq![]
    } else {
        let n = word_len(t);
        proof {
            lemma_trim_start_len(s);
        }
        if 0 < n <= t.len() {
            seq![t.take(n as int)] + words(t.skip(n as int))
        } else {
            seq![]
        }
    }
}

/// One line as `str::lines` gives it: a `\r` before the newline goes too.
pub open spec fn chomp(s: Seq<char>) -> Seq<char> {
    if s.len() > 0 && s.last() == '\r' {
        s.drop_last()
    } else {
        s
    }
}

/// `str::lines`: split at `\n`, drop the `\r` of a `\r\n`, and no empty line
/// after a final newline.
pub open spec fn lines(s: Seq<char>) -> Seq<Seq<char>>
    decreases s.len(),
{
    if s.len() == 0 {
        seq![]
    } else {
        match find_any(s, seq!['\n']) {
            Some(i) => {
                proof {
                    lemma_find_any(s, seq!['\n'], 0);
                }
                seq![chomp(s.take(i as int))] + lines(s.skip(i + 1 as int))
            },
            None => seq![s],
        }
    }
}

/// What `find_any_from` returns is the first position of the set at or
/// after `i`.
pub proof fn lemma_find_any(s: Seq<char>, set: Seq<char>, i: nat)
    ensures
        match find_any_from(s, set, i) {
            Some(j) => i <= j < s.len() && set.contains(s[j as int]) && forall|k: int|
                i <= k < j ==> !set.contains(#[trigger] s[k]),
            None => forall|k: int| i <= k < s.len() ==> !set.contains(#[trigger] s[k]),
        },
    decreases s.len() - i,
{
    if i < s.len() && !set.contains(s[i as int]) {
        lemma_find_any(s, set, i + 1);
    }
}

/// What `find_from` returns is the first position of the pattern at or
/// after `i`.
pub proof fn lemma_find(s: Seq<char>, p: Seq<char>, i: nat)
    ensures
        match find_from(s, p, i) {
            Some(j) => i <= j && j + p.len() <= s.len() && occurs_at(s, p, j as int)
                && forall|k: int| i <= k < j ==> !occurs_at(s, p, k),
            None => forall|k: int| i <= k ==> !occurs_at(s, p, k),
        },
    decreases s.len() - i,
{
    if i + p.len() > s.len() {
    } else if p.len() == 0 {
        assert(s.subrange(i as int, i as int) =~= p);
    } else if !occurs_at(s, p, i as int) {
        lemma_find(s, p, i + 1);
    }
}

/// What `rfind_any_below` returns is the last position of the set below `i`.
pub proof fn lemma_rfind_any(s: Seq<char>, set: Seq<char>, i: int)
    requires
        i <= s.len(),
    ensures
        match rfind_any_below(s, set, i) {
            Some(j) => j < i && j < s.len() && set.contains(s[j as int]),
            None => forall|k: int| 0 <= k < i ==> !set.contains(#[trigger] s[k]),
        },
    decreases i,
{
    if i > 0 && !set.contains(s[i - 1]) {
        lemma_rfind_any(s, set, i - 1);
    }
}

/// Trimming never lengthens a text, and leaves no whitespace in front.
pub proof fn lemma_trim_start_len(s: Seq<char>)
    ensures
        trim_start(s).len() <= s.len(),
        trim_start(s).len() > 0 ==> !is_ws(trim_start(s)[0]),
        trim_start(s) == s.skip(s.len() - trim_start(s).len()),
    decreases s.len(),
{
    if s.len() > 0 && is_ws(s[0]) {
        lemma_trim_start_len(s.drop_first());
        assert(s.drop_first().skip(s.drop_first().len() - trim_start(s).len()) =~= s.skip(
            s.len() - trim_start(s).len(),
        ));
    } else {
        assert(s.skip(0) =~= s);
    }
}

/// An ASCII digit.
pub open spec fn is_digit(c: char) -> bool {
    '0' <= c && c <= '9'
}

/// Every character is an ASCII digit.
pub open spec fn all_digits(s: Seq<char>) -> bool {
    forall|i: int| 0 <= i < s.len() ==> is_digit(#[trigger] s[i])
}

/// The number a run of digits spells.
pub open spec fn digits_value(s: Seq<char>) -> nat
    decreases s.len(),
{
    if s.len() == 0 {
        0
    } else {
        digits_value(s.drop_last()) * 10 + ((s.last() as u32 - '0' as u32) as nat)
    }
}

/// `str::parse` for an unsigned integer type whose largest value is `max`:
/// an optional `+`, then one or more digits, and nothing else.
pub open spec fn parse_unsigned(s: Seq<char>, max: nat) -> Option<nat> {
    let body = if s.len() > 0 && s[0] == '+' { s.drop_first() } else { s };
    if body.len() > 0 && all_digits(body) && digits_value(body) <= max {
        Some(digits_value(body))
    } else {
        None
    }
}

/// `str::parse::<i64>`: an optional sign, then one or more digits.
pub open spec fn parse_i64(s: Seq<char>) -> Option<int> {
    if s.len() > 0 && s[0] == '-' {
        let body = s.drop_first();
        if body.len() > 0 && all_digits(body) && digits_value(body) <= 0x8000_0000_0000_0000 {
            Some(-(digits_value(body) as int))
        } else {
            None
        }
    } else {
        match parse_unsigned(s, 0x7fff_ffff_ffff_ffff) {
            Some(n) => Some(n as int),
            None => None,
        }
    }
}

/// `char::to_ascii_lowercase`.
pub open spec fn ascii_lower(c: char) -> char {
    if 'A' <= c && c <= 'Z' {
        ((c as u32) + 32) as char
    } else {
        c
    }
}

/// `char::to_ascii_uppercase`.
pub open spec fn ascii_upper(c: char) -> char {
    if 'a' <= c && c <= 'z' {
        ((c as u32) - 32) as char
    } else {
        c
    }
}


/// The views of a list of character vectors.
pub open spec fn views(v: Seq<Vec<char>>) -> Seq<Seq<char>> {
    v.map_values(|x: Vec<char>| x@)
}

/// Whitespace in front does not change the words.
pub proof fn lemma_words_skip_ws(s: Seq<char>)
    requires
        s.len() > 0,
        is_ws(s[0]),
    ensures
        words(s) == words(s.drop_first()),
{
}

/// A run of non-whitespace up to whitespace or the end is one word long.
pub proof fn lemma_word_len(s: Seq<char>, n: nat)
    requires
        n <= s.len(),
        forall|k: int| 0 <= k < n ==> !is_ws(#[trigger] s[k]),
        n == s.len() || is_ws(s[n as int]),
    ensures
        word_len(s) == n,
    decreases n,
{
    if n > 0 {
        lemma_word_len(s.drop_first(), (n - 1) as nat);
    }
}

/// The value of a run of digits grows by one digit at a time.
pub proof fn lemma_digits_push(s: Seq<char>, c: char)
    ensures
        digits_value(s.push(c)) == digits_value(s) * 10 + ((c as u32 - '0' as u32) as nat),
{
    assert(s.push(c).drop_last() =~= s);
}

/// A longer run of digits is worth at least as much as its front.
pub proof fn lemma_digits_grow(s: Seq<char>, c: char)
    requires
        is_digit(c),
    ensures
        digits_value(s.push(c)) >= digits_value(s),
{
    lemma_digits_push(s, c);
}


/// The digit character for `d`.
pub open spec fn digit_char(d: nat) -> char {
    ((d + '0' as u32) as u32) as char
}

/// `n` in decimal, without sign or padding.
pub open spec fn decimal(n: nat) -> Seq<char>
    decreases n,
{
    if n < 10 {
        seq![digit_char(n)]
    } else {
        decimal(n / 10).push(digit_char(n % 10))
    }
}

/// `k` zeros.
pub open spec fn zeros(k: int) -> Seq<char> {
    Seq::new(if k > 0 { k as nat } else { 0 }, |i: int| '0')
}

/// `format!("{n:0width$}")`: the sign, then zeros up to `width` characters
/// in all, then the digits.
pub open spec fn padded(n: int, width: nat) -> Seq<char> {
    if n >= 0 {
        zeros(width - decimal(n as nat).len()) + decimal(n as nat)
    } else {
        seq!['-'] + zeros(width - 1 - decimal((-n) as nat).len()) + decimal((-n) as nat)
    }
}


/// How many bytes UTF-8 spends on `c`.
pub open spec fn utf8_width(c: char) -> nat {
    if (c as u32) < 0x80 {
        1
    } else if (c as u32) < 0x800 {
        2
    } else if (c as u32) < 0x10000 {
        3
    } else {
        4
    }
}

/// How many bytes UTF-8 spends on `s`: what `str::len` counts.
pub open spec fn utf8_len(s: Seq<char>) -> nat
    decreases s.len(),
{
    if s.len() == 0 {
        0
    } else {
        utf8_len(s.drop_last()) + utf8_width(s.last())
    }
}

/// `s` with every `from` replaced by `to`.
pub open spec fn replace_char(s: Seq<char>, from: char, to: char) -> Seq<char> {
    s.map_values(|c: char| if c == from { to } else { c })
}

// ---------------------------------------------------------------------------
// Files of lines
// ---------------------------------------------------------------------------

/// Lines each followed by a newline: a file as the `render` functions write
/// one.
pub open spec fn ended(ls: Seq<Seq<char>>) -> Seq<char>
    decreases ls.len(),
{
    if ls.len() == 0 {
        seq![]
    } else {
        ls[0] + seq!['\n'] + ended(ls.drop_first())
    }
}

/// `c` does not occur in `s`.
pub open spec fn free_of(s: Seq<char>, c: char) -> bool {
    forall|i: int| 0 <= i < s.len() ==> s[i] != c
}

/// A line that `str::lines` gives back as it is: no newline in it, and no
/// carriage return at its end.
pub open spec fn one_line(l: Seq<char>) -> bool {
    &&& forall|i: int| 0 <= i < l.len() ==> l[i] != '\n'
    &&& !(l.len() > 0 && l.last() == '\r')
}

/// Writing two runs of lines one after the other.
pub proof fn lemma_ended_concat(a: Seq<Seq<char>>, b: Seq<Seq<char>>)
    ensures
        ended(a + b) == ended(a) + ended(b),
    decreases a.len(),
{
    if a.len() == 0 {
        assert(a + b =~= b);
        assert(ended(a) =~= Seq::<char>::empty());
        assert(ended(a) + ended(b) =~= ended(b));
    } else {
        lemma_ended_concat(a.drop_first(), b);
        assert((a + b).drop_first() =~= a.drop_first() + b);
        assert((a + b)[0] == a[0]);
        assert(ended(a + b) =~= ended(a) + ended(b));
    }
}

/// Reading back a file of lines gives the lines.
pub proof fn lemma_lines_ended(ls: Seq<Seq<char>>)
    requires
        forall|k: int| 0 <= k < ls.len() ==> one_line(#[trigger] ls[k]),
    ensures
        lines(ended(ls)) == ls,
    decreases ls.len(),
{
    if ls.len() > 0 {
        let t = ls[0];
        let rest = ls.drop_first();
        assert forall|k: int| 0 <= k < rest.len() implies one_line(#[trigger] rest[k]) by {
            assert(rest[k] == ls[k + 1]);
        }
        lemma_lines_ended(rest);
        let whole = t + seq!['\n'] + ended(rest);
        assert(whole == ended(ls));
        lemma_find_any(whole, seq!['\n'], 0);
        assert(one_line(ls[0]));
        assert(seq!['\n'][0] == '\n');
        assert forall|k: int| 0 <= k < t.len() implies !seq!['\n'].contains(#[trigger] whole[k]) by {
            assert(whole[k] == t[k]);
            if seq!['\n'].contains(whole[k]) {
                let j = choose|j: int| 0 <= j < 1 && seq!['\n'][j] == whole[k];
                assert(j == 0);
            }
        }
        assert(whole[t.len() as int] == '\n');
        assert(find_any(whole, seq!['\n']) == Some(t.len())) by {
            match find_any(whole, seq!['\n']) {
                Some(m) => {
                    if m < t.len() {
                        assert(!seq!['\n'].contains(whole[m as int]));
                    } else if m > t.len() {
                        assert(seq!['\n'].contains(whole[t.len() as int]));
                    }
                },
                None => {
                    assert(seq!['\n'].contains(whole[t.len() as int]));
                },
            }
        }
        assert(whole.take(t.len() as int) =~= t);
        assert(whole.skip(t.len() + 1 as int) =~= ended(rest));
        assert(chomp(t) == t);
        assert(lines(whole) =~= seq![t] + rest);
        assert(seq![t] + rest =~= ls);
    }
}

/// Trimming leaves a text alone whose ends are not whitespace.
pub proof fn lemma_trim_ends(s: Seq<char>)
    requires
        s.len() > 0,
        !is_ws(s[0]),
        !is_ws(s.last()),
    ensures
        trim(s) == s,
{
    assert(trim_start(s) == s);
    assert(trim_end(s) == s);
}

/// A text split at the first `c`, when the part before it holds none.
pub proof fn lemma_split_first(a: Seq<char>, b: Seq<char>, c: char)
    requires
        forall|i: int| 0 <= i < a.len() ==> a[i] != c,
    ensures
        split_once(a + seq![c] + b, seq![c]) == Some((a, b)),
{
    let s = a + seq![c] + b;
    lemma_find(s, seq![c], 0);
    assert(s.subrange(a.len() as int, a.len() + 1int) =~= seq![c]);
    assert(occurs_at(s, seq![c], a.len() as int));
    match find(s, seq![c]) {
        Some(j) => {
            if j < a.len() {
                assert(s.subrange(j as int, j + 1int) == seq![c]);
                assert(s.subrange(j as int, j + 1int)[0] == s[j as int]);
                assert(s[j as int] == a[j as int]);
            }
            assert(j == a.len());
        },
        None => {},
    }
    assert(s.take(a.len() as int) =~= a);
    assert(s.skip(a.len() + 1int) =~= b);
}

/// A text with no character of `set` in it has nothing before one.
pub proof fn lemma_before_none(s: Seq<char>, set: Seq<char>)
    requires
        forall|i: int| 0 <= i < s.len() ==> !set.contains(#[trigger] s[i]),
    ensures
        before_any(s, set) == s,
{
    lemma_find_any(s, set, 0);
    match find_any(s, set) {
        Some(j) => {
            assert(set.contains(s[j as int]));
        },
        None => {},
    }
}

/// A character is in the one-character set of `c` exactly when it is `c`.
pub proof fn lemma_in_one(x: char, c: char)
    ensures
        seq![c].contains(x) <==> x == c,
{
    if seq![c].contains(x) {
        let k = choose|k: int| 0 <= k < 1 && seq![c][k] == x;
        assert(k == 0);
    }
    if x == c {
        assert(seq![c][0] == x);
    }
}

/// A text without `c` in it is one piece.
pub proof fn lemma_split_none(a: Seq<char>, c: char)
    requires
        forall|i: int| 0 <= i < a.len() ==> a[i] != c,
    ensures
        split(a, c) == seq![a],
{
    lemma_find_any(a, seq![c], 0);
    match find_any(a, seq![c]) {
        Some(j) => {
            lemma_in_one(a[j as int], c);
        },
        None => {},
    }
}

/// The first piece is what comes before the first `c`.
pub proof fn lemma_split_front(a: Seq<char>, b: Seq<char>, c: char)
    requires
        forall|i: int| 0 <= i < a.len() ==> a[i] != c,
    ensures
        split(a + seq![c] + b, c) == seq![a] + split(b, c),
{
    let s = a + seq![c] + b;
    lemma_find_any(s, seq![c], 0);
    lemma_in_one(s[a.len() as int], c);
    match find_any(s, seq![c]) {
        Some(j) => {
            if j < a.len() {
                assert(s[j as int] == a[j as int]);
                lemma_in_one(s[j as int], c);
            }
            assert(j == a.len());
        },
        None => {},
    }
    assert(s.take(a.len() as int) =~= a);
    assert(s.skip(a.len() + 1int) =~= b);
}

/// The last piece is what comes after the last `c`.
pub proof fn lemma_split_last(a: Seq<char>, b: Seq<char>, c: char)
    requires
        forall|i: int| 0 <= i < b.len() ==> b[i] != c,
    ensures
        split(a + seq![c] + b, c) == split(a, c).push(b),
    decreases a.len(),
{
    lemma_find_any(a, seq![c], 0);
    match find_any(a, seq![c]) {
        None => {
            assert forall|i: int| 0 <= i < a.len() implies a[i] != c by {
                lemma_in_one(a[i], c);
            }
            lemma_split_front(a, b, c);
            lemma_split_none(b, c);
            lemma_split_none(a, c);
            assert(seq![a] + seq![b] =~= seq![a].push(b));
        },
        Some(j) => {
            let a1 = a.take(j as int);
            let a2 = a.skip(j + 1int);
            lemma_in_one(a[j as int], c);
            assert(a =~= a1 + seq![c] + a2);
            assert forall|i: int| 0 <= i < a1.len() implies a1[i] != c by {
                lemma_in_one(a[i], c);
            }
            lemma_split_front(a1, a2, c);
            lemma_split_last(a2, b, c);
            assert(a + seq![c] + b =~= a1 + seq![c] + (a2 + seq![c] + b));
            lemma_split_front(a1, a2 + seq![c] + b, c);
            assert((seq![a1] + split(a2, c)).push(b) =~= seq![a1] + split(a2, c).push(b));
        },
    }
}

/// A space in front of a text that needs no trimming goes on trimming.
pub proof fn lemma_trim_spaced(x: Seq<char>)
    requires
        x.len() > 0,
        !is_ws(x[0]),
        !is_ws(x.last()),
    ensures
        trim(seq![' '] + x) == x,
        trim(x) == x,
{
    let s = seq![' '] + x;
    assert(s.drop_first() =~= x);
    assert(trim_start(s) == trim_start(x));
    lemma_trim_ends(x);
}

/// The digits of a number are the characters `0` to `9`.
pub proof fn lemma_decimal_digits(n: nat)
    ensures
        decimal(n).len() > 0,
        forall|i: int| 0 <= i < decimal(n).len() ==> is_digit(#[trigger] decimal(n)[i]),
    decreases n,
{
    lemma_digit_char(n % 10);
    if n >= 10 {
        lemma_decimal_digits(n / 10);
        let d = decimal(n / 10);
        assert forall|i: int| 0 <= i < decimal(n).len() implies is_digit(#[trigger] decimal(n)[i]) by {
            if i < d.len() {
                assert(decimal(n)[i] == d[i]);
            }
        }
    }
}

/// The digit character of a number below ten is a digit.
pub proof fn lemma_digit_char(d: nat)
    requires
        d < 10,
    ensures
        is_digit(digit_char(d)),
        (digit_char(d) as u32 - '0' as u32) as nat == d,
{
}

/// Trimming the front of a text stops before a character that is not
/// whitespace.
pub proof fn lemma_trim_start_concat(a: Seq<char>, b: Seq<char>)
    requires
        b.len() > 0,
        !is_ws(b[0]),
    ensures
        trim_start(a + b) == trim_start(a) + b,
    decreases a.len(),
{
    if a.len() == 0 {
        assert(a + b =~= b);
        assert(trim_start(a) + b =~= b);
    } else if is_ws(a[0]) {
        assert((a + b).drop_first() =~= a.drop_first() + b);
        lemma_trim_start_concat(a.drop_first(), b);
    } else {
        assert((a + b)[0] == a[0]);
    }
}

/// Trimming the back of a text stops after a character that is not
/// whitespace.
pub proof fn lemma_trim_end_concat(a: Seq<char>, b: Seq<char>)
    requires
        a.len() > 0,
        !is_ws(a.last()),
    ensures
        trim_end(a + b) == a + trim_end(b),
    decreases b.len(),
{
    if b.len() == 0 {
        assert(a + b =~= a);
        assert(a + trim_end(b) =~= a);
    } else if is_ws(b.last()) {
        assert((a + b).drop_last() =~= a + b.drop_last());
        lemma_trim_end_concat(a, b.drop_last());
    } else {
        assert((a + b).last() == b.last());
    }
}

/// Trimming the front twice trims no more than once.
pub proof fn lemma_trim_start_twice(s: Seq<char>)
    ensures
        trim_start(trim_start(s)) == trim_start(s),
    decreases s.len(),
{
    if s.len() > 0 && is_ws(s[0]) {
        lemma_trim_start_twice(s.drop_first());
    }
}

/// Trimming the back twice trims no more than once.
pub proof fn lemma_trim_end_twice(s: Seq<char>)
    ensures
        trim_end(trim_end(s)) == trim_end(s),
    decreases s.len(),
{
    if s.len() > 0 && is_ws(s.last()) {
        lemma_trim_end_twice(s.drop_last());
    }
}

/// What trimming the front keeps: whatever follows it.
pub proof fn lemma_trim_start_keep(a: Seq<char>, b: Seq<char>)
    ensures
        trim_start(a).len() > 0 ==> trim_start(a + b) == trim_start(a) + b,
        trim_start(a).len() == 0 ==> trim_start(a + b) == trim_start(b),
    decreases a.len(),
{
    if a.len() == 0 {
        assert(a + b =~= b);
    } else if is_ws(a[0]) {
        assert((a + b).drop_first() =~= a.drop_first() + b);
        lemma_trim_start_keep(a.drop_first(), b);
    } else {
        assert((a + b)[0] == a[0]);
    }
}

/// Trimming the two ends in either order.
pub proof fn lemma_trim_commute(s: Seq<char>)
    ensures
        trim_start(trim_end(s)) == trim_end(trim_start(s)),
    decreases s.len(),
{
    if s.len() > 0 && is_ws(s.last()) {
        let a = s.drop_last();
        let c = s.last();
        lemma_trim_commute(a);
        assert(s =~= a + seq![c]);
        lemma_trim_start_keep(a, seq![c]);
        if trim_start(a).len() > 0 {
            assert((trim_start(a) + seq![c]).drop_last() =~= trim_start(a));
            assert((trim_start(a) + seq![c]).last() == c);
        } else {
            assert(seq![c].drop_first() =~= Seq::<char>::empty());
            assert(seq![c][0] == c);
            assert(trim_start(Seq::<char>::empty()) =~= Seq::<char>::empty());
            assert(trim_start(seq![c]) =~= Seq::<char>::empty());
            lemma_trim_end_shape(a);
            lemma_trim_start_len(trim_end(a));
            lemma_trim_start_len(a);
            if trim_start(trim_end(a)).len() > 0 {
                assert(trim_end(trim_start(a)) =~= Seq::<char>::empty());
            }
        }
    } else {
        lemma_trim_start_len(s);
        let t = trim_start(s);
        if t.len() > 0 {
            assert(t.last() == s.last());
        }
    }
}

/// Trimming one end first changes nothing about trimming both.
pub proof fn lemma_trim_after_one(s: Seq<char>)
    ensures
        trim(trim_start(s)) == trim(s),
        trim(trim_end(s)) == trim(s),
{
    lemma_trim_start_twice(s);
    lemma_trim_commute(s);
    lemma_trim_end_twice(trim_start(s));
}

/// What trimming the back keeps: a front of the text ending in no
/// whitespace.
pub proof fn lemma_trim_end_shape(s: Seq<char>)
    ensures
        trim_end(s) == s.take(trim_end(s).len() as int),
        trim_end(s).len() <= s.len(),
        trim_end(s).len() > 0 ==> !is_ws(trim_end(s).last()),
    decreases s.len(),
{
    if s.len() > 0 && is_ws(s.last()) {
        lemma_trim_end_shape(s.drop_last());
        assert(s.drop_last().take(trim_end(s).len() as int) =~= s.take(trim_end(s).len() as int));
    } else {
        assert(s.take(s.len() as int) =~= s);
    }
}

/// A number written in decimal reads back as itself.
pub proof fn lemma_decimal_value(n: nat)
    ensures
        digits_value(decimal(n)) == n,
    decreases n,
{
    if n >= 10 {
        lemma_decimal_value(n / 10);
        lemma_digits_push(decimal(n / 10), digit_char(n % 10));
        lemma_digit_char(n % 10);
        assert(decimal(n) == decimal(n / 10).push(digit_char(n % 10)));
        assert(digits_value(decimal(n)) == (n / 10) * 10 + n % 10);
    } else {
        lemma_digit_char(n);
        lemma_digits_push(Seq::<char>::empty(), digit_char(n));
        assert(Seq::<char>::empty().push(digit_char(n)) =~= seq![digit_char(n)]);
        assert(decimal(n) == seq![digit_char(n)]);
    }
}

/// A number written in decimal parses back as itself when it fits.
pub proof fn lemma_decimal_parse(n: nat, max: nat)
    requires
        n <= max,
    ensures
        parse_unsigned(decimal(n), max) == Some(n),
{
    lemma_decimal_value(n);
    lemma_decimal_digits(n);
    assert(is_digit(decimal(n)[0]));
}

} // verus!
