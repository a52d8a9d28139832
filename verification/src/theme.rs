//! Color themes: the built-in ones, a theme file's `key = "#rrggbb"` lines,
//! and walking from one theme to the next.
use vstd::prelude::*;

use crate::seqs;
use crate::text;

verus! {

/// A color as red, green and blue.
#[derive(Debug, Clone, Copy, PartialEq, Eq)]
pub struct Rgb {
    pub r: u8,
    pub g: u8,
    pub b: u8,
}

/// The color with these parts.
pub open spec fn col(r: u8, g: u8, b: u8) -> Rgb {
    Rgb { r, g, b }
}

/// The color with these parts.
pub fn rgb(r: u8, g: u8, b: u8) -> (c: Rgb)
    ensures
        c == col(r, g, b),
{
    Rgb { r, g, b }
}

/// A theme: its name and its colors.
#[derive(Debug, Clone, PartialEq)]
pub struct Theme {
    pub name: String,
    pub accent: Rgb,
    pub ok: Rgb,
    pub err: Rgb,
    pub muted: Rgb,
    /// Selected row background.
    pub selected: Rgb,
    /// Window background.
    pub bg: Rgb,
    /// Sidebar and alternating row background.
    pub panel: Rgb,
    pub fg: Rgb,
}

/// A theme's colors, in the order a theme file lists its keys: accent, ok,
/// err, muted, selected, bg, panel, fg.
pub open spec fn colors_of(t: Theme) -> Seq<Rgb> {
    seq![t.accent, t.ok, t.err, t.muted, t.selected, t.bg, t.panel, t.fg]
}

// ---------------------------------------------------------------------------
// Colors
// ---------------------------------------------------------------------------

/// A hex digit's value.
pub open spec fn hex_digit(c: char) -> Option<nat> {
    if '0' <= c <= '9' {
        Some((c as u32 - '0' as u32) as nat)
    } else if 'a' <= c <= 'f' {
        Some((c as u32 - 'a' as u32 + 10) as nat)
    } else if 'A' <= c <= 'F' {
        Some((c as u32 - 'A' as u32 + 10) as nat)
    } else {
        None
    }
}

/// Hex digits' value; nothing when one is not a digit.
pub open spec fn hex_value(s: Seq<char>) -> Option<nat>
    decreases s.len(),
{
    if s.len() == 0 {
        Some(0)
    } else {
        match (hex_value(s.drop_last()), hex_digit(s.last())) {
            (Some(v), Some(d)) => Some(v * 16 + d),
            _ => None,
        }
    }
}

/// `#rrggbb` as a color: six characters after the `#`, read as one hex
/// number (which may carry a `+` in front, as Rust's reading of a number
/// allows), split into its three bytes.
pub open spec fn hex_of(s: Seq<char>) -> Option<Rgb> {
    if s.len() != 7 || s[0] != '#' {
        None
    } else {
        let digits = if s[1] == '+' {
            s.skip(2)
        } else {
            s.skip(1)
        };
        match hex_value(digits) {
            Some(n) => Some(col(((n / 65536) % 256) as u8, ((n / 256) % 256) as u8, (n % 256) as u8)),
            None => None,
        }
    }
}

proof fn lemma_hex_bound(s: Seq<char>)
    ensures
        hex_value(s) matches Some(n) ==> n < pow16(s.len()),
    decreases s.len(),
{
    if s.len() > 0 {
        lemma_hex_bound(s.drop_last());
        match (hex_value(s.drop_last()), hex_digit(s.last())) {
            (Some(v), Some(d)) => {
                assert(v * 16 + d < pow16(s.len())) by (nonlinear_arith)
                    requires
                        v < pow16((s.len() - 1) as nat),
                        d < 16,
                        pow16(s.len()) == 16 * pow16((s.len() - 1) as nat);
            },
            _ => {},
        }
    }
}

/// `16^k`.
pub open spec fn pow16(k: nat) -> nat
    decreases k,
{
    if k == 0 {
        1
    } else {
        16 * pow16((k - 1) as nat)
    }
}

fn digit_value(c: char) -> (r: Option<u32>)
    ensures
        match hex_digit(c) {
            Some(d) => r == Some(d as u32),
            None => r is None,
        },
{
    if '0' <= c && c <= '9' {
        Some(c as u32 - '0' as u32)
    } else if 'a' <= c && c <= 'f' {
        Some(c as u32 - 'a' as u32 + 10)
    } else if 'A' <= c && c <= 'F' {
        Some(c as u32 - 'A' as u32 + 10)
    } else {
        None
    }
}

/// `#rrggbb` as a color.
pub fn hex(s: &str) -> (r: Option<Rgb>)
    ensures
        r == hex_of(s@),
{
    let c = text::chars_of(s);
    if c.len() != 7 || c[0] != '#' {
        return None;
    }
    let from: usize = if c[1] == '+' { 2 } else { 1 };
    let digits = text::slice_of(c.as_slice(), from, 7);
    proof {
        assert(digits@ =~= (if s@[1] == '+' { s@.skip(2) } else { s@.skip(1) }));
        assert(pow16(0) == 1);
        assert(pow16(1) == 16);
        assert(pow16(2) == 256);
        assert(pow16(3) == 4096);
        assert(pow16(4) == 65536);
        assert(pow16(5) == 1048576);
        assert(pow16(6) == 16777216);
    }
    let mut v: u32 = 0;
    let mut i: usize = 0;
    while i < digits.len()
        invariant
            i <= digits@.len() <= 6,
            s@.len() == 7 && s@[0] == '#',
            digits@ == (if s@[1] == '+' { s@.skip(2) } else { s@.skip(1) }),
            hex_value(digits@.take(i as int)) == Some(v as nat),
            v < pow16(i as nat),
            pow16(6) == 16777216,
            forall|k: nat| k <= 6 ==> #[trigger] pow16(k) <= 16777216,
        decreases digits@.len() - i,
    {
        proof {
            assert(digits@.take(i + 1).drop_last() =~= digits@.take(i as int));
            assert(digits@.take(i + 1).last() == digits@[i as int]);
        }
        match digit_value(digits[i]) {
            Some(d) => {
                proof {
                    assert(pow16((i + 1) as nat) == 16 * pow16(i as nat));
                    assert(v * 16 + d < 16 * pow16(i as nat)) by (nonlinear_arith)
                        requires v < pow16(i as nat), d < 16;
                }
                v = v * 16 + d;
            },
            None => {
                proof {
                    lemma_none_stays(digits@, i as int);
                }
                return None;
            },
        }
        i += 1;
    }
    proof {
        assert(digits@.take(digits@.len() as int) =~= digits@);
    }
    Some(rgb(((v / 65536) % 256) as u8, ((v / 256) % 256) as u8, (v % 256) as u8))
}

/// Once a character is not a hex digit, no longer prefix reads either.
proof fn lemma_none_stays(s: Seq<char>, i: int)
    requires
        0 <= i < s.len(),
        hex_digit(s[i]) is None,
    ensures
        hex_value(s) is None,
    decreases s.len(),
{
    if i == s.len() - 1 {
        assert(s.last() == s[i]);
    } else {
        assert(s.drop_last()[i] == s[i]);
        lemma_none_stays(s.drop_last(), i);
    }
}

// ---------------------------------------------------------------------------
// The built-in themes
// ---------------------------------------------------------------------------

/// How many themes come built in.
pub const BUILTINS: usize = 6;

/// A built-in theme: name, then accent, ok, err, muted, selected, bg, panel
/// and fg.
pub open spec fn builtin_row(i: int) -> (Seq<char>, Seq<Rgb>) {
    if i == 0 {
        ("tokyonight"@, seq![col(0x7a, 0xa2, 0xf7), col(0x9e, 0xce, 0x6a), col(0xf7, 0x76, 0x8e), col(0x56, 0x5f, 0x89),
            col(0x29, 0x2e, 0x42), col(0x1a, 0x1b, 0x26), col(0x16, 0x16, 0x1e), col(0xc0, 0xca, 0xf5)])
    } else if i == 1 {
        ("catppuccin"@, seq![col(0x89, 0xb4, 0xfa), col(0xa6, 0xe3, 0xa1), col(0xf3, 0x8b, 0xa8), col(0x6c, 0x70, 0x86),
            col(0x31, 0x32, 0x44), col(0x1e, 0x1e, 0x2e), col(0x18, 0x18, 0x25), col(0xcd, 0xd6, 0xf4)])
    } else if i == 2 {
        ("monokai"@, seq![col(0x66, 0xd9, 0xef), col(0xa6, 0xe2, 0x2e), col(0xf9, 0x26, 0x72), col(0x75, 0x71, 0x5e),
            col(0x3e, 0x3d, 0x32), col(0x27, 0x28, 0x22), col(0x1e, 0x1f, 0x1c), col(0xf8, 0xf8, 0xf2)])
    } else if i == 3 {
        ("gruvbox"@, seq![col(0x83, 0xa5, 0x98), col(0xb8, 0xbb, 0x26), col(0xfb, 0x49, 0x34), col(0x92, 0x83, 0x74),
            col(0x3c, 0x38, 0x36), col(0x28, 0x28, 0x28), col(0x1d, 0x20, 0x21), col(0xeb, 0xdb, 0xb2)])
    } else if i == 4 {
        ("nord"@, seq![col(0x88, 0xc0, 0xd0), col(0xa3, 0xbe, 0x8c), col(0xbf, 0x61, 0x6a), col(0x4c, 0x56, 0x6a),
            col(0x3b, 0x42, 0x52), col(0x2e, 0x34, 0x40), col(0x27, 0x2c, 0x36), col(0xd8, 0xde, 0xe9)])
    } else {
        ("dracula"@, seq![col(0x8b, 0xe9, 0xfd), col(0x50, 0xfa, 0x7b), col(0xff, 0x55, 0x55), col(0x62, 0x72, 0xa4),
            col(0x44, 0x47, 0x5a), col(0x28, 0x2a, 0x36), col(0x21, 0x22, 0x2c), col(0xf8, 0xf8, 0xf2)])
    }
}

/// A theme is built-in theme `i`.
pub open spec fn is_builtin(t: Theme, i: int) -> bool {
    t.name@ == builtin_row(i).0 && colors_of(t) == builtin_row(i).1
}

fn row(name: &str, c: [Rgb; 8]) -> (t: Theme)
    ensures
        t.name@ == name@,
        colors_of(t) == c@,
{
    let t = Theme {
        name: text::string_of(text::chars_of(name).as_slice()),
        accent: c[0],
        ok: c[1],
        err: c[2],
        muted: c[3],
        selected: c[4],
        bg: c[5],
        panel: c[6],
        fg: c[7],
    };
    proof {
        assert(colors_of(t) =~= c@);
    }
    t
}

/// Built-in theme `i`.
pub fn builtin(i: usize) -> (t: Theme)
    requires
        i < BUILTINS,
    ensures
        is_builtin(t, i as int),
{
    let t = if i == 0 {
        row("tokyonight", [rgb(0x7a, 0xa2, 0xf7), rgb(0x9e, 0xce, 0x6a), rgb(0xf7, 0x76, 0x8e), rgb(0x56, 0x5f, 0x89),
            rgb(0x29, 0x2e, 0x42), rgb(0x1a, 0x1b, 0x26), rgb(0x16, 0x16, 0x1e), rgb(0xc0, 0xca, 0xf5)])
    } else if i == 1 {
        row("catppuccin", [rgb(0x89, 0xb4, 0xfa), rgb(0xa6, 0xe3, 0xa1), rgb(0xf3, 0x8b, 0xa8), rgb(0x6c, 0x70, 0x86),
            rgb(0x31, 0x32, 0x44), rgb(0x1e, 0x1e, 0x2e), rgb(0x18, 0x18, 0x25), rgb(0xcd, 0xd6, 0xf4)])
    } else if i == 2 {
        row("monokai", [rgb(0x66, 0xd9, 0xef), rgb(0xa6, 0xe2, 0x2e), rgb(0xf9, 0x26, 0x72), rgb(0x75, 0x71, 0x5e),
            rgb(0x3e, 0x3d, 0x32), rgb(0x27, 0x28, 0x22), rgb(0x1e, 0x1f, 0x1c), rgb(0xf8, 0xf8, 0xf2)])
    } else if i == 3 {
        row("gruvbox", [rgb(0x83, 0xa5, 0x98), rgb(0xb8, 0xbb, 0x26), rgb(0xfb, 0x49, 0x34), rgb(0x92, 0x83, 0x74),
            rgb(0x3c, 0x38, 0x36), rgb(0x28, 0x28, 0x28), rgb(0x1d, 0x20, 0x21), rgb(0xeb, 0xdb, 0xb2)])
    } else if i == 4 {
        row("nord", [rgb(0x88, 0xc0, 0xd0), rgb(0xa3, 0xbe, 0x8c), rgb(0xbf, 0x61, 0x6a), rgb(0x4c, 0x56, 0x6a),
            rgb(0x3b, 0x42, 0x52), rgb(0x2e, 0x34, 0x40), rgb(0x27, 0x2c, 0x36), rgb(0xd8, 0xde, 0xe9)])
    } else {
        row("dracula", [rgb(0x8b, 0xe9, 0xfd), rgb(0x50, 0xfa, 0x7b), rgb(0xff, 0x55, 0x55), rgb(0x62, 0x72, 0xa4),
            rgb(0x44, 0x47, 0x5a), rgb(0x28, 0x2a, 0x36), rgb(0x21, 0x22, 0x2c), rgb(0xf8, 0xf8, 0xf2)])
    };
    proof {
        reveal_strlit("tokyonight");
        reveal_strlit("catppuccin");
        reveal_strlit("monokai");
        reveal_strlit("gruvbox");
        reveal_strlit("nord");
        reveal_strlit("dracula");
    }
    t
}

/// Every built-in theme, in order.
pub fn builtins() -> (r: Vec<Theme>)
    ensures
        r@.len() == BUILTINS,
        forall|i: int| 0 <= i < BUILTINS ==> is_builtin(#[trigger] r@[i], i),
{
    let mut r: Vec<Theme> = Vec::new();
    let mut i: usize = 0;
    while i < BUILTINS
        invariant
            i <= BUILTINS,
            r@.len() == i,
            forall|k: int| 0 <= k < i ==> is_builtin(#[trigger] r@[k], k),
        decreases BUILTINS - i,
    {
        r.push(builtin(i));
        i += 1;
    }
    r
}

impl Theme {
    /// The same theme, its name copied.
    pub fn copy(&self) -> (r: Theme)
        ensures
            r.name@ == self.name@,
            colors_of(r) == colors_of(*self),
    {
        Theme {
            name: text::string_of(text::chars_of(self.name.as_str()).as_slice()),
            accent: self.accent,
            ok: self.ok,
            err: self.err,
            muted: self.muted,
            selected: self.selected,
            bg: self.bg,
            panel: self.panel,
            fg: self.fg,
        }
    }
}

impl Default for Theme {
    /// The first built-in theme.
    fn default() -> (t: Theme)
        ensures
            is_builtin(t, 0),
    {
        builtin(0)
    }
}


// ---------------------------------------------------------------------------
// Theme files
// ---------------------------------------------------------------------------

/// A theme as its name and its colors.
pub open spec fn theme_view(t: Theme) -> (Seq<char>, Seq<Rgb>) {
    (t.name@, colors_of(t))
}

/// Which color a theme file's key sets.
pub open spec fn color_key(k: Seq<char>) -> Option<int> {
    if k == "accent"@ {
        Some(0)
    } else if k == "ok"@ {
        Some(1)
    } else if k == "err"@ {
        Some(2)
    } else if k == "muted"@ {
        Some(3)
    } else if k == "selected"@ {
        Some(4)
    } else if k == "bg"@ {
        Some(5)
    } else if k == "panel"@ {
        Some(6)
    } else if k == "fg"@ {
        Some(7)
    } else {
        None
    }
}

/// One line of a theme file read into the colors so far: `key = "#rrggbb"`
/// sets a color; comments, unknown keys and colors that do not read leave
/// them as they were, so a typo degrades to the default color.
pub open spec fn color_step(colors: Seq<Rgb>, line: Seq<char>) -> Seq<Rgb> {
    match seqs::split_once(seqs::trim(line), seq!['=']) {
        Some((k, v)) => match hex_of(seqs::strip(seqs::trim(v), seq!['"', '\''])) {
            Some(c) => match color_key(seqs::trim(k)) {
                Some(i) => colors.update(i, c),
                None => colors,
            },
            None => colors,
        },
        None => colors,
    }
}

/// The colors after reading these lines over `colors`.
pub open spec fn colors_after(colors: Seq<Rgb>, lines: Seq<Seq<char>>) -> Seq<Rgb>
    decreases lines.len(),
{
    if lines.len() == 0 {
        colors
    } else {
        color_step(colors_after(colors, lines.drop_last()), lines.last())
    }
}

fn key_index(k: &[char]) -> (r: Option<usize>)
    ensures
        match color_key(k@) {
            Some(i) => r == Some(i as usize),
            None => r is None,
        },
{
    if text::same(k, text::chars_of("accent").as_slice()) {
        Some(0)
    } else if text::same(k, text::chars_of("ok").as_slice()) {
        Some(1)
    } else if text::same(k, text::chars_of("err").as_slice()) {
        Some(2)
    } else if text::same(k, text::chars_of("muted").as_slice()) {
        Some(3)
    } else if text::same(k, text::chars_of("selected").as_slice()) {
        Some(4)
    } else if text::same(k, text::chars_of("bg").as_slice()) {
        Some(5)
    } else if text::same(k, text::chars_of("panel").as_slice()) {
        Some(6)
    } else if text::same(k, text::chars_of("fg").as_slice()) {
        Some(7)
    } else {
        None
    }
}

fn with_colors(name: &str, c: &Vec<Rgb>) -> (t: Theme)
    requires
        c@.len() == 8,
    ensures
        theme_view(t) == (name@, c@),
{
    let t = Theme {
        name: text::string_of(text::chars_of(name).as_slice()),
        accent: c[0],
        ok: c[1],
        err: c[2],
        muted: c[3],
        selected: c[4],
        bg: c[5],
        panel: c[6],
        fg: c[7],
    };
    proof {
        assert(colors_of(t) =~= c@);
    }
    t
}

impl Theme {
    /// A theme file named `name`: the default theme's colors, with those the
    /// file sets.
    pub fn from_config(name: &str, body: &str) -> (t: Theme)
        ensures
            theme_view(t) == (name@, colors_after(builtin_row(0).1, seqs::lines(body@))),
    {
        let base = builtin(0);
        let mut colors: Vec<Rgb> = vec![base.accent, base.ok, base.err, base.muted, base.selected, base.bg, base.panel, base.fg];
        proof {
            assert(colors@ =~= colors_of(base));
        }
        let ls = text::lines(text::chars_of(body).as_slice());
        let ghost lv = seqs::views(ls@);
        let mut i: usize = 0;
        proof {
            assert(lv.take(0) =~= Seq::<Seq<char>>::empty());
        }
        while i < ls.len()
            invariant
                i <= ls@.len(),
                lv == seqs::views(ls@),
                lv == seqs::lines(body@),
                colors@ == colors_after(builtin_row(0).1, lv.take(i as int)),
                colors@.len() == 8,
            decreases ls@.len() - i,
        {
            proof {
                assert(lv.take(i + 1).drop_last() =~= lv.take(i as int));
                assert(lv.take(i + 1).last() == ls@[i as int]@);
            }
            let line = text::trim(ls[i].as_slice());
            match text::split_once(line.as_slice(), text::one('=').as_slice()) {
                Some((k, v)) => {
                    let quotes = ['"', '\''];
                    proof {
                        assert(quotes@ =~= seq!['"', '\'']);
                    }
                    let value = text::strip(text::trim(v.as_slice()).as_slice(), &quotes);
                    match hex(text::string_of(value.as_slice()).as_str()) {
                        Some(c) => match key_index(text::trim(k.as_slice()).as_slice()) {
                            Some(at) => {
                                colors.set(at, c);
                            },
                            None => {},
                        },
                        None => {},
                    }
                },
                None => {},
            }
            i += 1;
        }
        proof {
            assert(lv.take(ls@.len() as int) =~= lv);
        }
        with_colors(name, &colors)
    }
}

// ---------------------------------------------------------------------------
// Walking the themes
// ---------------------------------------------------------------------------

/// Where the first theme named `name` stands.
pub open spec fn theme_index(themes: Seq<Theme>, name: Seq<char>, i: int) -> Option<int>
    decreases themes.len() - i,
{
    if i < 0 || i >= themes.len() {
        None
    } else if themes[i].name@ == name {
        Some(i)
    } else {
        theme_index(themes, name, i + 1)
    }
}

/// The same text up to the case of ASCII letters.
pub open spec fn same_ignoring_case(a: Seq<char>, b: Seq<char>) -> bool {
    a.len() == b.len() && forall|i: int| 0 <= i < a.len() ==> seqs::ascii_upper(#[trigger] a[i]) == seqs::ascii_upper(b[i])
}

/// Where the first theme whose name matches `name` whatever its case stands.
pub open spec fn theme_named(themes: Seq<Theme>, name: Seq<char>, i: int) -> Option<int>
    decreases themes.len() - i,
{
    if i < 0 || i >= themes.len() {
        None
    } else if same_ignoring_case(themes[i].name@, name) {
        Some(i)
    } else {
        theme_named(themes, name, i + 1)
    }
}

fn same_letter(a: char, b: char) -> (r: bool)
    ensures
        r == (seqs::ascii_upper(a) == seqs::ascii_upper(b)),
{
    let (x, y) = (a as u32, b as u32);
    let r = x == y || ('a' <= a && a <= 'z' && y + 32 == x) || ('a' <= b && b <= 'z' && x + 32 == y);
    proof {
        let ua = seqs::ascii_upper(a);
        let ub = seqs::ascii_upper(b);
        assert(ua as u32 == (if 'a' <= a && a <= 'z' { x - 32 } else { x as int }));
        assert(ub as u32 == (if 'a' <= b && b <= 'z' { y - 32 } else { y as int }));
    }
    r
}

fn same_case_blind(a: &[char], b: &[char]) -> (r: bool)
    ensures
        r == same_ignoring_case(a@, b@),
{
    if a.len() != b.len() {
        return false;
    }
    let mut i: usize = 0;
    while i < a.len()
        invariant
            a@.len() == b@.len(),
            i <= a@.len(),
            forall|k: int| 0 <= k < i ==> seqs::ascii_upper(#[trigger] a@[k]) == seqs::ascii_upper(b@[k]),
        decreases a@.len() - i,
    {
        if !same_letter(a[i], b[i]) {
            return false;
        }
        i += 1;
    }
    true
}

fn index_of(themes: &[Theme], name: &str) -> (r: Option<usize>)
    ensures
        match r {
            Some(i) => theme_index(themes@, name@, 0) == Some(i as int),
            None => theme_index(themes@, name@, 0) is None,
        },
{
    let want = text::chars_of(name);
    let mut i: usize = 0;
    while i < themes.len()
        invariant
            i <= themes@.len(),
            want@ == name@,
            theme_index(themes@, name@, 0) == theme_index(themes@, name@, i as int),
        decreases themes@.len() - i,
    {
        if text::same(text::chars_of(themes[i].name.as_str()).as_slice(), want.as_slice()) {
            return Some(i);
        }
        i += 1;
    }
    None
}

proof fn lemma_theme_index(themes: Seq<Theme>, name: Seq<char>, i: int)
    requires
        0 <= i,
    ensures
        theme_index(themes, name, i) is Some ==> i <= theme_index(themes, name, i).unwrap() < themes.len(),
    decreases themes.len() - i,
{
    if i < themes.len() {
        lemma_theme_index(themes, name, i + 1);
    }
}

impl Theme {
    /// The theme after this one in `themes`, wrapping; from a theme not in
    /// the list, the second. No themes, no change.
    pub fn next(&self, themes: &[Theme]) -> (t: Theme)
        ensures
            themes@.len() == 0 ==> theme_view(t) == theme_view(*self),
            themes@.len() > 0 ==> {
                let i = match theme_index(themes@, self.name@, 0) {
                    Some(i) => i,
                    None => 0,
                };
                theme_view(t) == theme_view(themes@[(i + 1) % (themes@.len() as int)])
            },
    {
        if themes.len() == 0 {
            return self.copy();
        }
        proof {
            lemma_theme_index(themes@, self.name@, 0);
        }
        let i = match index_of(themes, self.name.as_str()) {
            Some(i) => i,
            None => 0,
        };
        let j = if i + 1 < themes.len() { i + 1 } else { 0 };
        proof {
            let n = themes@.len() as int;
            if i + 1 < n {
                assert((i + 1) % n == i + 1) by (nonlinear_arith) requires 0 <= i + 1 < n;
            } else {
                assert((i + 1) % n == 0) by (nonlinear_arith) requires i + 1 == n, n >= 1;
            }
        }
        themes[j].copy()
    }

    /// The theme before this one in `themes`, wrapping.
    pub fn prev(&self, themes: &[Theme]) -> (t: Theme)
        ensures
            themes@.len() == 0 ==> theme_view(t) == theme_view(*self),
            themes@.len() > 0 ==> {
                let i = match theme_index(themes@, self.name@, 0) {
                    Some(i) => i,
                    None => 0,
                };
                theme_view(t) == theme_view(themes@[(i + themes@.len() - 1) % (themes@.len() as int)])
            },
    {
        if themes.len() == 0 {
            return self.copy();
        }
        proof {
            lemma_theme_index(themes@, self.name@, 0);
        }
        let i = match index_of(themes, self.name.as_str()) {
            Some(i) => i,
            None => 0,
        };
        let j = if i == 0 { themes.len() - 1 } else { i - 1 };
        proof {
            let n = themes@.len() as int;
            if i == 0 {
                assert((i + n - 1) % n == n - 1) by (nonlinear_arith) requires i == 0, n >= 1;
            } else {
                assert((i + n - 1) % n == i - 1) by (nonlinear_arith) requires 1 <= i < n;
            }
        }
        themes[j].copy()
    }
}

/// The theme of this name, whatever its case; an unknown name falls back
/// to the default rather than failing a launch.
pub fn named(themes: &[Theme], name: &str) -> (t: Theme)
    ensures
        match theme_named(themes@, name@, 0) {
            Some(i) => theme_view(t) == theme_view(themes@[i]),
            None => is_builtin(t, 0),
        },
{
    let want = text::chars_of(name);
    let mut i: usize = 0;
    while i < themes.len()
        invariant
            i <= themes@.len(),
            want@ == name@,
            theme_named(themes@, name@, 0) == theme_named(themes@, name@, i as int),
        decreases themes@.len() - i,
    {
        if same_case_blind(text::chars_of(themes[i].name.as_str()).as_slice(), want.as_slice()) {
            return themes[i].copy();
        }
        i += 1;
    }
    builtin(0)
}

/// Add a theme from the user's files: it replaces one of the same name, or
/// joins the end.
pub fn add_theme(themes: &mut Vec<Theme>, t: Theme)
    ensures
        match theme_index(old(themes)@, t.name@, 0) {
            Some(i) => final(themes)@ == old(themes)@.update(i, t),
            None => final(themes)@ == old(themes)@.push(t),
        },
{
    proof {
        lemma_theme_index(themes@, t.name@, 0);
    }
    match index_of(themes.as_slice(), t.name.as_str()) {
        Some(i) => {
            themes.set(i, t);
        },
        None => {
            themes.push(t);
        },
    }
}
} // verus!
