//! Url patterns, pasted text and calendar dates.
use vstd::prelude::*;

use crate::seqs;
use crate::text;

verus! {

/// Ceiling on one expansion.
pub const MAX_EXPANSION: i64 = 500;

/// The views of a list of strings.
pub open spec fn strings(v: Seq<String>) -> Seq<Seq<char>> {
    v.map_values(|s: String| s@)
}

/// Appends a copy of `s` to a list of strings.
pub fn push_str(v: &mut Vec<String>, s: &str)
    ensures
        strings(final(v)@) == strings(old(v)@).push(s@),
{
    let t = text::string_of(text::chars_of(s).as_slice());
    v.push(t);
    proof {
        assert(strings(v@) =~= strings(old(v)@).push(s@));
    }
}

/// Appends `head` followed by `tail` to a list of strings.
pub fn push_joined(v: &mut Vec<String>, head: &str, tail: &[char])
    ensures
        strings(final(v)@) == strings(old(v)@).push(head@ + tail@),
{
    let mut c = text::chars_of(head);
    text::push_all(&mut c, tail);
    v.push(text::string_of(c.as_slice()));
    proof {
        assert(strings(v@) =~= strings(old(v)@).push(head@ + tail@));
    }
}

/// `s` is one of `list`.
pub fn is_listed(list: &[String], s: &str) -> (r: bool)
    ensures
        r == strings(list@).contains(s@),
{
    let want = text::chars_of(s);
    let mut i: usize = 0;
    while i < list.len()
        invariant
            i <= list@.len(),
            want@ == s@,
            forall|j: int| 0 <= j < i ==> list@[j]@ != s@,
        decreases list@.len() - i,
    {
        if text::same(text::chars_of(list[i].as_str()).as_slice(), want.as_slice()) {
            proof {
                assert(strings(list@)[i as int] == s@);
            }
            return true;
        }
        i += 1;
    }
    proof {
        if strings(list@).contains(s@) {
            let j = choose|j: int| 0 <= j < strings(list@).len() && strings(list@)[j] == s@;
            assert(list@[j]@ == s@);
        }
    }
    false
}

/// `from-to`, inclusive and non-negative, around whitespace.
pub open spec fn range_of(range: Seq<char>) -> Option<(int, int)> {
    match seqs::split_once(seqs::trim(range), seq!['-']) {
        Some((a, b)) => match (seqs::parse_i64(seqs::trim(a)), seqs::parse_i64(seqs::trim(b))) {
            (Some(from), Some(to)) => if from >= 0 && to >= from {
                Some((from, to))
            } else {
                None
            },
            _ => None,
        },
        None => None,
    }
}

/// How many ASCII digits `s` starts with.
pub open spec fn digit_run(s: Seq<char>) -> nat
    decreases s.len(),
{
    if s.len() > 0 && seqs::is_digit(s[0]) {
        1 + digit_run(s.drop_first())
    } else {
        0
    }
}

/// The pad width a run of digits asks for; one too large to read is none.
pub open spec fn width_of(spec: Seq<char>) -> nat {
    match seqs::parse_unsigned(spec, usize::MAX as nat) {
        Some(w) => w,
        None => 0,
    }
}

/// A pattern with `%d` and `%0Nd` replaced by `n` and `%%` by `%`; any other
/// `%` is kept as typed, with the digits after it.
pub open spec fn filled(p: Seq<char>, n: int) -> Seq<char>
    decreases p.len(),
{
    if p.len() == 0 {
        seq![]
    } else if p[0] != '%' {
        seq![p[0]] + filled(p.drop_first(), n)
    } else {
        let rest = p.drop_first();
        let k = digit_run(rest);
        if k <= rest.len() {
            let spec = rest.take(k as int);
            let after = rest.skip(k as int);
            if after.len() > 0 && after[0] == 'd' {
                seqs::padded(n, width_of(spec)) + filled(after.drop_first(), n)
            } else if after.len() > 0 && after[0] == '%' && k == 0 {
                seq!['%'] + filled(after.drop_first(), n)
            } else {
                seq!['%'] + spec + filled(after, n)
            }
        } else {
            seq![]
        }
    }
}

/// The urls a pattern expands into over a range: one per number, at most
/// `MAX_EXPANSION`, and the pattern itself when the range is not one.
pub open spec fn expansion(pattern: Seq<char>, range: Seq<char>) -> Seq<Seq<char>> {
    match range_of(range) {
        Some((from, to)) => {
            let last = if to < from + (MAX_EXPANSION - 1) { to } else { from + (MAX_EXPANSION - 1) };
            Seq::new((last - from + 1) as nat, |i: int| filled(pattern, from + i))
        },
        None => seq![pattern],
    }
}

proof fn lemma_digit_run(s: Seq<char>)
    ensures
        digit_run(s) <= s.len(),
        forall|k: int| 0 <= k < digit_run(s) ==> seqs::is_digit(#[trigger] s[k]),
        digit_run(s) < s.len() ==> !seqs::is_digit(s[digit_run(s) as int]),
    decreases s.len(),
{
    if s.len() > 0 && seqs::is_digit(s[0]) {
        lemma_digit_run(s.drop_first());
        assert forall|k: int| 0 <= k < digit_run(s) implies seqs::is_digit(#[trigger] s[k]) by {
            if k > 0 {
                assert(s[k] == s.drop_first()[k - 1]);
            }
        }
    }
}

/// `from-to`, inclusive, non-negative. Anything else is not a range.
pub fn parse_range(range: &str) -> (r: Option<(i64, i64)>)
    ensures
        match r {
            Some((from, to)) => range_of(range@) == Some((from as int, to as int)),
            None => range_of(range@) is None,
        },
{
    let chars = text::chars_of(range);
    let t = text::trim(chars.as_slice());
    let dash = ['-'];
    proof {
        assert(dash@ =~= seq!['-']);
    }
    let (a, b) = match text::split_once(t.as_slice(), &dash) {
        Some(parts) => parts,
        None => return None,
    };
    let from = match text::parse_i64(text::trim(a.as_slice()).as_slice()) {
        Some(n) => n,
        None => return None,
    };
    let to = match text::parse_i64(text::trim(b.as_slice()).as_slice()) {
        Some(n) => n,
        None => return None,
    };
    if from >= 0 && to >= from {
        Some((from, to))
    } else {
        None
    }
}

/// Substitute `%d` / `%0Nd` with `n`; `%%` is a literal `%`. Anything else
/// after a `%` is left as typed.
pub fn fill(pattern: &str, n: i64) -> (r: String)
    ensures
        r@ == filled(pattern@, n as int),
{
    let p = text::chars_of(pattern);
    let out = fill_chars(p.as_slice(), n);
    text::string_of(out.as_slice())
}

fn fill_chars(p: &[char], n: i64) -> (out: Vec<char>)
    ensures
        out@ == filled(p@, n as int),
{
    let mut out: Vec<char> = Vec::new();
    let mut i: usize = 0;
    proof {
        assert(p@.skip(0) =~= p@);
    }
    while i < p.len()
        invariant
            i <= p@.len(),
            filled(p@, n as int) == out@ + filled(p@.skip(i as int), n as int),
        decreases p@.len() - i,
    {
        let ghost s = p@.skip(i as int);
        let c = p[i];
        if c != '%' {
            out.push(c);
            proof {
                assert(s.drop_first() =~= p@.skip(i + 1));
                assert(out@ == out@.drop_last().push(c));
            }
            i += 1;
        } else {
            let mut j = i + 1;
            while j < p.len() && '0' <= p[j] && p[j] <= '9'
                invariant
                    i < j <= p@.len(),
                    forall|k: int| i < k < j ==> seqs::is_digit(#[trigger] p@[k]),
                decreases p@.len() - j,
            {
                j += 1;
            }
            let spec = text::slice_of(p, i + 1, j);
            proof {
                let rest = s.drop_first();
                lemma_digit_run(rest);
                let k = (j - i - 1) as nat;
                assert(rest =~= p@.skip(i + 1));
                assert(digit_run(rest) == k) by {
                    if digit_run(rest) < k {
                        assert(seqs::is_digit(rest[digit_run(rest) as int]));
                    } else if digit_run(rest) > k {
                        assert(seqs::is_digit(rest[k as int]));
                    }
                }
                assert(rest.take(k as int) =~= spec@);
                assert(rest.skip(k as int) =~= p@.skip(j as int));
            }
            if j < p.len() && p[j] == 'd' {
                let width: usize = match text::parse_unsigned(spec.as_slice(), usize::MAX as u64) {
                    Some(w) => w as usize,
                    None => 0,
                };
                let digits = text::padded(n, width);
                text::push_all(&mut out, digits.as_slice());
                proof {
                    assert(p@.skip(j as int).drop_first() =~= p@.skip(j + 1));
                }
                i = j + 1;
            } else if j < p.len() && p[j] == '%' && j == i + 1 {
                out.push('%');
                proof {
                    assert(p@.skip(j as int).drop_first() =~= p@.skip(j + 1));
                    assert(out@ =~= out@.drop_last() + seq!['%']);
                }
                i = j + 1;
            } else {
                let ghost before = out@;
                out.push('%');
                text::push_all(&mut out, spec.as_slice());
                proof {
                    assert(out@ =~= before + seq!['%'] + spec@);
                }
                i = j;
            }
        }
    }
    proof {
        assert(p@.skip(i as int) =~= Seq::<char>::empty());
        assert(out@ + Seq::<char>::empty() =~= out@);
    }
    out
}

/// Expand a C-style url pattern over an inclusive range: `a%03d.iso` with
/// `1-3` gives `a001.iso`, `a002.iso`, `a003.iso`. No range, no expansion.
pub fn expand(pattern: &str, range: &str) -> (r: Vec<String>)
    requires
        range_of(range@) matches Some((from, _)) ==> from + MAX_EXPANSION - 1 <= i64::MAX,
    ensures
        strings(r@) == expansion(pattern@, range@),
{
    let (from, to) = match parse_range(range) {
        Some(bounds) => bounds,
        None => {
            let mut r = Vec::new();
            r.push(text::string_of(text::chars_of(pattern).as_slice()));
            proof {
                assert(strings(r@) =~= seq![pattern@]);
            }
            return r;
        },
    };
    proof {
        assert(range_of(range@) == Some((from as int, to as int)));
        assert(from + MAX_EXPANSION - 1 <= i64::MAX);
    }
    // A typo like `1-100000000` must not enqueue a million downloads.
    let last = if to < from + (MAX_EXPANSION - 1) { to } else { from + (MAX_EXPANSION - 1) };
    let count = (last - from + 1) as usize;
    let p = text::chars_of(pattern);
    let mut r: Vec<String> = Vec::new();
    let mut i: usize = 0;
    while i < count
        invariant
            0 <= from <= last < from + MAX_EXPANSION,
            count == last - from + 1,
            i <= count,
            p@ == pattern@,
            strings(r@) =~= Seq::new(i as nat, |j: int| filled(pattern@, from + j)),
        decreases count - i,
    {
        let s = text::string_of(fill_chars(p.as_slice(), from + i as i64).as_slice());
        let ghost before = r@;
        r.push(s);
        proof {
            assert(strings(r@) =~= strings(before).push(s@));
            assert(strings(r@) =~= Seq::new((i + 1) as nat, |j: int| filled(pattern@, from + j)));
        }
        i += 1;
    }
    r
}


// ---------------------------------------------------------------------------
// Calendar dates
// ---------------------------------------------------------------------------

/// Rust's `/` on signed integers: the quotient rounded toward zero.
pub open spec fn tdiv(a: int, b: int) -> int {
    if a >= 0 {
        a / b
    } else {
        -((-a) / b)
    }
}

/// A value an `i64` holds.
pub open spec fn fits(v: int) -> bool {
    i64::MIN <= v <= i64::MAX
}

/// Days since 1970-01-01 of a civil date, by eras of 400 years.
pub open spec fn days_before(y: int, m: int, d: int) -> int {
    let y = y - if m <= 2 { 1int } else { 0int };
    let era = tdiv(if y >= 0 { y } else { y - 399 }, 400);
    let yoe = y - era * 400;
    let doy = tdiv(153 * (m + if m > 2 { -3int } else { 9int }) + 2, 5) + d - 1;
    let doe = yoe * 365 + tdiv(yoe, 4) - tdiv(yoe, 100) + doy;
    era * 146_097 + doe - 719_468
}

/// Every step of `days_from_civil` stays within an `i64`.
pub open spec fn days_before_fits(y: int, m: int, d: int) -> bool {
    let y1 = y - if m <= 2 { 1int } else { 0int };
    let era = tdiv(if y1 >= 0 { y1 } else { y1 - 399 }, 400);
    let yoe = y1 - era * 400;
    let madj = m + if m > 2 { -3int } else { 9int };
    let doy = tdiv(153 * madj + 2, 5) + d - 1;
    let doe = yoe * 365 + tdiv(yoe, 4) - tdiv(yoe, 100) + doy;
    &&& fits(y1) && fits(y1 - 399) && fits(era * 400)
    &&& fits(madj) && fits(153 * madj) && fits(153 * madj + 2)
    &&& fits(tdiv(153 * madj + 2, 5) + d) && fits(doy)
    &&& fits(doe) && fits(era * 146_097) && fits(era * 146_097 + doe)
    &&& fits(era * 146_097 + doe - 719_468)
}

/// The civil date `days` after 1970-01-01, as (year, month, day).
pub open spec fn civil_of(days: int) -> (int, int, int) {
    let z = days + 719_468;
    let era = tdiv(if z >= 0 { z } else { z - 146_096 }, 146_097);
    let doe = z - era * 146_097;
    let yoe = tdiv(doe - tdiv(doe, 1460) + tdiv(doe, 36_524) - tdiv(doe, 146_096), 365);
    let doy = doe - (365 * yoe + tdiv(yoe, 4) - tdiv(yoe, 100));
    let mp = tdiv(5 * doy + 2, 153);
    let d = doy - tdiv(153 * mp + 2, 5) + 1;
    let m = if mp < 10 { mp + 3 } else { mp - 9 };
    (yoe + era * 400 + if m <= 2 { 1int } else { 0int }, m, d)
}

/// Every step of `civil` stays within an `i64`.
pub open spec fn civil_fits(days: int) -> bool {
    let z = days + 719_468;
    let era = z / 146_097;
    fits(z) && fits(z - 146_096) && fits(era * 400 + 400)
}

/// Division rounding toward zero of a shifted negative is floor division.
proof fn lemma_floor(z: int, b: int)
    requires
        b > 0,
    ensures
        tdiv(if z >= 0 { z } else { z - (b - 1) }, b) == z / b,
{
    if z < 0 {
        let q = z / b;
        let r = z % b;
        vstd::arithmetic::div_mod::lemma_fundamental_div_mod(z, b);
        assert(0 <= r < b);
        assert(z == q * b + r) by (nonlinear_arith)
            requires z == b * q + r;
        let w = -(z - (b - 1));
        assert(w == (-q) * b + (b - 1 - r)) by (nonlinear_arith)
            requires z == q * b + r, w == -(z - (b - 1));
        vstd::arithmetic::div_mod::lemma_fundamental_div_mod_converse_div(w, b, -q, b - 1 - r);
    }
}

/// The parts `civil` splits a day count into are within their ranges.
proof fn lemma_civil_parts(doe: int)
    requires
        0 <= doe <= 146_096,
    ensures
        ({
            let yoe = (doe - doe / 1460 + doe / 36_524 - doe / 146_096) / 365;
            let doy = doe - (365 * yoe + yoe / 4 - yoe / 100);
            &&& 0 <= yoe <= 399
            &&& 0 <= doy <= 365
        }),
{
    let a = doe / 1460;
    let b = doe / 36_524;
    let c = doe / 146_096;
    assert(0 <= a && a * 1460 <= doe && doe < a * 1460 + 1460) by (nonlinear_arith)
        requires a == doe / 1460, doe >= 0;
    assert(0 <= b && b * 36_524 <= doe && doe < b * 36_524 + 36_524) by (nonlinear_arith)
        requires b == doe / 36_524, doe >= 0;
    assert(0 <= c && c * 146_096 <= doe && doe < c * 146_096 + 146_096) by (nonlinear_arith)
        requires c == doe / 146_096, doe >= 0;
    let n = doe - a + b - c;
    let yoe = n / 365;
    assert(0 <= n <= 145_999) by (nonlinear_arith)
        requires
            0 <= doe <= 146_096,
            0 <= a, a * 1460 <= doe, doe < a * 1460 + 1460,
            0 <= b, b * 36_524 <= doe, doe < b * 36_524 + 36_524,
            0 <= c, c * 146_096 <= doe, doe < c * 146_096 + 146_096,
            n == doe - a + b - c;
    assert(0 <= yoe <= 399 && yoe * 365 <= n && n < yoe * 365 + 365) by (nonlinear_arith)
        requires yoe == n / 365, 0 <= n <= 145_999;
    let e = yoe / 4;
    let f = yoe / 100;
    assert(0 <= e && e * 4 <= yoe && yoe < e * 4 + 4) by (nonlinear_arith)
        requires e == yoe / 4, yoe >= 0;
    assert(0 <= f && f * 100 <= yoe && yoe < f * 100 + 100) by (nonlinear_arith)
        requires f == yoe / 100, yoe >= 0;
    let doy = doe - (365 * yoe + e - f);
    assert(0 <= doy <= 365) by (nonlinear_arith)
        requires
            0 <= doe <= 146_096,
            0 <= a, a * 1460 <= doe, doe < a * 1460 + 1460,
            0 <= b, b * 36_524 <= doe, doe < b * 36_524 + 36_524,
            0 <= c, c * 146_096 <= doe, doe < c * 146_096 + 146_096,
            n == doe - a + b - c,
            0 <= yoe <= 399, yoe * 365 <= n, n < yoe * 365 + 365,
            0 <= e, e * 4 <= yoe, yoe < e * 4 + 4,
            0 <= f, f * 100 <= yoe, yoe < f * 100 + 100,
            doy == doe - (365 * yoe + e - f);
}

/// March-based year `k` of an era ends in a February 29th: the year after it
/// is a leap year, counting the era's last year as one.
pub open spec fn era_leap(k: int) -> bool {
    k % 4 == 3 && (k % 100 != 99 || k == 399)
}

/// A day of year `k` of an era, counted from the era's start, falls in year
/// `k` by the year count `civil` makes.
proof fn lemma_era_year(k: int, j: int)
    requires
        0 <= k <= 399,
        0 <= j <= 364 || (j == 365 && era_leap(k)),
    ensures
        ({
            let doe = 365 * k + k / 4 - k / 100 + j;
            &&& 0 <= doe <= 146_096
            &&& (doe - doe / 1460 + doe / 36_524 - doe / 146_096) / 365 == k
        }),
{
    let q = k / 4;
    let r = k % 4;
    let c = k / 100;
    let s = q % 25;
    assert(k == 4 * q + r && 0 <= r < 4 && 0 <= q <= 99) by (nonlinear_arith)
        requires q == k / 4, r == k % 4, 0 <= k <= 399;
    assert(q == 25 * c + s && 0 <= s < 25 && 0 <= c <= 3) by (nonlinear_arith)
        requires q == k / 4, c == k / 100, s == q % 25, 0 <= k <= 399, k == 4 * q + k % 4, 0 <= k % 4 < 4;
    assert(k % 100 == 4 * s + r) by (nonlinear_arith)
        requires k == 4 * q + r, q == 25 * c + s, 0 <= s < 25, 0 <= r < 4, c == k / 100, 0 <= k <= 399;
    let doe = 365 * k + q - c + j;
    let a = doe / 1460;
    let b = doe / 36_524;
    let cc = doe / 146_096;
    assert(0 <= doe <= 146_096);
    assert(0 <= a && a * 1460 <= doe && doe < a * 1460 + 1460) by (nonlinear_arith)
        requires a == doe / 1460, doe >= 0;
    assert(0 <= b && b * 36_524 <= doe && doe < b * 36_524 + 36_524) by (nonlinear_arith)
        requires b == doe / 36_524, doe >= 0;
    assert(0 <= cc && cc * 146_096 <= doe && doe < cc * 146_096 + 146_096) by (nonlinear_arith)
        requires cc == doe / 146_096, doe >= 0;
    let n = doe - a + b - cc;
    assert(365 * k <= n && n < 365 * k + 365);
    assert(n / 365 == k) by (nonlinear_arith)
        requires 365 * k <= n, n < 365 * k + 365;
}

/// The day of a March-based year a date falls on, and back: `civil`'s month
/// count gives the month again, and only February 29th is a year's 366th day.
proof fn lemma_month_day(y: int, m: int, d: int)
    requires
        real_date(y, m, d),
    ensures
        ({
            let mp = m + if m > 2 { -3int } else { 9int };
            let j = (153 * mp + 2) / 5 + d - 1;
            &&& (5 * j + 2) / 153 == mp
            &&& 0 <= j <= 364 || (j == 365 && m == 2 && d == 29)
        }),
{
    let mp = m + if m > 2 { -3int } else { 9int };
    let p = (153 * mp + 2) / 5;
    let j = p + d - 1;
    if m == 1 {
        assert(p == 306);
        assert((5 * j + 2) / 153 == 10) by (nonlinear_arith)
            requires j == 306 + d - 1, 1 <= d <= 31;
    } else if m == 2 {
        assert(p == 337);
        assert((5 * j + 2) / 153 == 11) by (nonlinear_arith)
            requires j == 337 + d - 1, 1 <= d <= 29;
    } else if m == 3 {
        assert(p == 0);
        assert((5 * j + 2) / 153 == 0) by (nonlinear_arith)
            requires j == 0 + d - 1, 1 <= d <= 31;
    } else if m == 4 {
        assert(p == 31);
        assert((5 * j + 2) / 153 == 1) by (nonlinear_arith)
            requires j == 31 + d - 1, 1 <= d <= 30;
    } else if m == 5 {
        assert(p == 61);
        assert((5 * j + 2) / 153 == 2) by (nonlinear_arith)
            requires j == 61 + d - 1, 1 <= d <= 31;
    } else if m == 6 {
        assert(p == 92);
        assert((5 * j + 2) / 153 == 3) by (nonlinear_arith)
            requires j == 92 + d - 1, 1 <= d <= 30;
    } else if m == 7 {
        assert(p == 122);
        assert((5 * j + 2) / 153 == 4) by (nonlinear_arith)
            requires j == 122 + d - 1, 1 <= d <= 31;
    } else if m == 8 {
        assert(p == 153);
        assert((5 * j + 2) / 153 == 5) by (nonlinear_arith)
            requires j == 153 + d - 1, 1 <= d <= 31;
    } else if m == 9 {
        assert(p == 184);
        assert((5 * j + 2) / 153 == 6) by (nonlinear_arith)
            requires j == 184 + d - 1, 1 <= d <= 30;
    } else if m == 10 {
        assert(p == 214);
        assert((5 * j + 2) / 153 == 7) by (nonlinear_arith)
            requires j == 214 + d - 1, 1 <= d <= 31;
    } else if m == 11 {
        assert(p == 245);
        assert((5 * j + 2) / 153 == 8) by (nonlinear_arith)
            requires j == 245 + d - 1, 1 <= d <= 30;
    } else if m == 12 {
        assert(p == 275);
        assert((5 * j + 2) / 153 == 9) by (nonlinear_arith)
            requires j == 275 + d - 1, 1 <= d <= 31;
    }
}

/// A year that follows year `k` of an era in the Gregorian leap rule.
proof fn lemma_era_leap(era: int, k: int)
    requires
        0 <= k <= 399,
        leap_year(400 * era + k + 1),
    ensures
        era_leap(k),
{
    let x = k + 1;
    vstd::arithmetic::div_mod::lemma_mod_multiples_vanish(100 * era, x, 4);
    vstd::arithmetic::div_mod::lemma_mod_multiples_vanish(4 * era, x, 100);
    vstd::arithmetic::div_mod::lemma_mod_multiples_vanish(era, x, 400);
    assert(4 * (100 * era) + x == 400 * era + k + 1);
    assert(100 * (4 * era) + x == 400 * era + k + 1);
    assert(400 * era + x == 400 * era + k + 1);
}

/// `civil` undoes `days_from_civil`: a date that exists comes back from its
/// day count.
pub proof fn law_civil_of_date(y: int, m: int, d: int)
    requires
        real_date(y, m, d),
    ensures
        civil_of(days_before(y, m, d)) == (y, m, d),
{
    let y1 = y - if m <= 2 { 1int } else { 0int };
    lemma_floor(y1, 400);
    let era = y1 / 400;
    let k = y1 - era * 400;
    assert(0 <= k <= 399) by (nonlinear_arith)
        requires era == y1 / 400, k == y1 - era * 400;
    let mp = m + if m > 2 { -3int } else { 9int };
    let p = (153 * mp + 2) / 5;
    let j = p + d - 1;
    lemma_month_day(y, m, d);
    if j == 365 {
        assert(y == 400 * era + k + 1);
        lemma_era_leap(era, k);
    }
    lemma_era_year(k, j);
    let doe = 365 * k + k / 4 - k / 100 + j;
    assert(days_before(y, m, d) == era * 146_097 + doe - 719_468);
    let z = era * 146_097 + doe;
    lemma_floor(z, 146_097);
    assert(z / 146_097 == era) by (nonlinear_arith)
        requires z == era * 146_097 + doe, 0 <= doe <= 146_096;
    assert(z - era * 146_097 == doe);
    assert(doe - (365 * k + k / 4 - k / 100) == j);
}

/// `days_from_civil` undoes `civil`: the date of a day count names that day.
pub proof fn law_civil_round_trip(days: int)
    requires
        civil_fits(days),
    ensures
        ({
            let (y, m, d) = civil_of(days);
            days_before(y, m, d) == days
        }),
{
    let z = days + 719_468;
    lemma_floor(z, 146_097);
    let era = z / 146_097;
    let doe = z - era * 146_097;
    assert(0 <= doe < 146_097) by (nonlinear_arith)
        requires era == z / 146_097, doe == z - era * 146_097;
    lemma_civil_parts(doe);
    let yoe = (doe - doe / 1460 + doe / 36_524 - doe / 146_096) / 365;
    let doy = doe - (365 * yoe + yoe / 4 - yoe / 100);
    let mp = (5 * doy + 2) / 153;
    assert(0 <= mp <= 11) by (nonlinear_arith)
        requires mp == (5 * doy + 2) / 153, 0 <= doy <= 365;
    let d = doy - (153 * mp + 2) / 5 + 1;
    let m = if mp < 10 { mp + 3 } else { mp - 9 };
    let y = yoe + era * 400 + if m <= 2 { 1int } else { 0int };
    assert(civil_of(days) == (y, m, d));
    let y1 = y - if m <= 2 { 1int } else { 0int };
    assert(y1 == yoe + era * 400);
    lemma_floor(y1, 400);
    assert(y1 / 400 == era) by (nonlinear_arith)
        requires y1 == yoe + era * 400, 0 <= yoe <= 399;
    assert(m + (if m > 2 { -3int } else { 9int }) == mp);
    assert(153 * mp + 2 >= 0);
}

/// Days since 1970-01-01 of a date given as year, month and day.
pub fn days_from_civil(y: i64, m: i64, d: i64) -> (r: i64)
    requires
        days_before_fits(y as int, m as int, d as int),
    ensures
        r == days_before(y as int, m as int, d as int),
{
    let y = y - if m <= 2 { 1i64 } else { 0i64 };
    let era = if y >= 0 { y } else { y - 399 } / 400;
    let yoe = y - era * 400;
    proof {
        lemma_floor(y as int, 400);
        assert(0 <= yoe < 400) by (nonlinear_arith)
            requires yoe == y - era * 400, era == y / 400;
    }
    let doy = (153 * (m + if m > 2 { -3i64 } else { 9i64 }) + 2) / 5 + d - 1;
    let doe = yoe * 365 + yoe / 4 - yoe / 100 + doy;
    era * 146_097 + doe - 719_468
}

/// Days since 1970-01-01 as (year, month, day). Eras of 400 years, each of
/// which has exactly 146097 days, so the leap rules need no special cases.
pub fn civil(days: i64) -> (r: (i64, i64, i64))
    requires
        civil_fits(days as int),
    ensures
        (r.0 as int, r.1 as int, r.2 as int) == civil_of(days as int),
        1 <= r.1 <= 12,
        1 <= r.2 <= 31,
{
    // Shift the epoch to 0000-03-01, which puts the leap day last in a year.
    let z = days + 719_468;
    let era = if z >= 0 { z } else { z - 146_096 } / 146_097;
    let doe = z - era * 146_097;
    proof {
        lemma_floor(z as int, 146_097);
        assert(0 <= doe < 146_097) by (nonlinear_arith)
            requires era == z / 146_097, doe == z - era * 146_097;
        lemma_civil_parts(doe as int);
    }
    let yoe = (doe - doe / 1460 + doe / 36_524 - doe / 146_096) / 365;
    let doy = doe - (365 * yoe + yoe / 4 - yoe / 100);
    let mp = (5 * doy + 2) / 153;
    proof {
        assert(0 <= mp <= 11) by (nonlinear_arith)
            requires mp == (5 * doy + 2) / 153, 0 <= doy <= 365;
        assert(1 <= doy - (153 * mp + 2) / 5 + 1 <= 31) by (nonlinear_arith)
            requires mp == (5 * doy + 2) / 153, 0 <= doy <= 365, 0 <= mp <= 11;
    }
    let d = doy - (153 * mp + 2) / 5 + 1;
    let m = if mp < 10 { mp + 3 } else { mp - 9 };
    (yoe + era * 400 + if m <= 2 { 1i64 } else { 0i64 }, m, d)
}


/// A date as yt-dlp reads one: `YYYYMMDD`, each part zero padded.
pub open spec fn stamp_of(days: int) -> Seq<char> {
    let (y, m, d) = civil_of(days);
    seqs::padded(y, 4) + seqs::padded(m, 2) + seqs::padded(d, 2)
}

/// The value of the digits of `s` from `a` up to `b`.
pub open spec fn digits_at(s: Seq<char>, a: int, b: int) -> int {
    seqs::digits_value(s.subrange(a, b)) as int
}

/// A leap year of the Gregorian calendar.
pub open spec fn leap_year(y: int) -> bool {
    (y % 4 == 0 && y % 100 != 0) || y % 400 == 0
}

/// How many days month `m` of year `y` has.
pub open spec fn month_days(y: int, m: int) -> int {
    if m == 2 {
        if leap_year(y) {
            29
        } else {
            28
        }
    } else if m == 4 || m == 6 || m == 9 || m == 11 {
        30
    } else {
        31
    }
}

/// A date that exists: a month of the year, a day of that month.
pub open spec fn real_date(y: int, m: int, d: int) -> bool {
    1 <= m <= 12 && 1 <= d <= month_days(y, m)
}

/// What `days_of` reads a `YYYYMMDD` as: nothing unless it names a date
/// that exists.
pub open spec fn days_of_date(s: Seq<char>) -> Option<int> {
    if s.len() == 8 && seqs::all_digits(s) && real_date(digits_at(s, 0, 4), digits_at(s, 4, 6), digits_at(s, 6, 8)) {
        Some(days_before(digits_at(s, 0, 4), digits_at(s, 4, 6), digits_at(s, 6, 8)))
    } else {
        None
    }
}

/// A reading of the system clock.
#[verifier::external_type_specification]
#[verifier::external_body]
pub struct ExSystemTime(std::time::SystemTime);

/// A clock reading before the epoch.
#[verifier::external_type_specification]
#[verifier::external_body]
pub struct ExSystemTimeError(std::time::SystemTimeError);

/// `SystemTime::now`. What the clock reads is the machine's, so nothing is
/// promised of it.
#[verifier::external_body]
fn clock_now() -> std::time::SystemTime {
    std::time::SystemTime::now()
}

/// `SystemTime::duration_since` the Unix epoch: an error for a reading
/// before it. Which of the two comes back rests on the clock.
#[verifier::external_body]
fn since_epoch(t: &std::time::SystemTime) -> Result<std::time::Duration, std::time::SystemTimeError> {
    t.duration_since(std::time::UNIX_EPOCH)
}

/// `Duration::as_secs`: the whole seconds of a span of time, which is
/// opaque here, so nothing is promised of the number.
#[verifier::external_body]
fn whole_secs(d: &std::time::Duration) -> u64 {
    d.as_secs()
}

/// The system clock as whole seconds since the Unix epoch; `None` for a
/// clock set before it. What the clock reads is the machine's, so nothing is
/// promised of the number.
pub fn unix_secs() -> Option<u64> {
    match since_epoch(&clock_now()) {
        Ok(d) => Some(whole_secs(&d)),
        Err(_) => None,
    }
}

/// The day a day count names, as `YYYYMMDD`.
pub fn day_stamp(days: i64) -> (r: String)
    requires
        civil_fits(days as int),
    ensures
        r@ == stamp_of(days as int),
{
    let (y, m, d) = civil(days);
    let mut v = text::padded(y, 4);
    text::push_all(&mut v, text::padded(m, 2).as_slice());
    text::push_all(&mut v, text::padded(d, 2).as_slice());
    text::string_of(v.as_slice())
}

/// A clock reading as `i64` takes it: one past `i64::MAX` wraps around.
pub open spec fn signed_secs(secs: u64) -> int {
    if secs > i64::MAX {
        secs - 0x1_0000_0000_0000_0000
    } else {
        secs as int
    }
}

/// Whole days since the epoch for a clock reading in seconds, divided as
/// `i64` divides: towards zero.
pub open spec fn epoch_days(secs: u64) -> int {
    let s = signed_secs(secs);
    if s >= 0 {
        s / 86_400
    } else {
        -((-s) / 86_400)
    }
}

/// Whole days since the epoch for a clock reading in seconds.
pub fn days_since_epoch(secs: u64) -> (r: i64)
    ensures
        r == epoch_days(secs),
        i64::MIN / 86_400 <= r <= i64::MAX / 86_400,
{
    if secs <= i64::MAX as u64 {
        (secs / 86_400) as i64
    } else {
        let neg: u64 = (u64::MAX - secs) + 1;
        let d: u64 = neg / 86_400;
        -(d as i64)
    }
}

/// Today as days since the epoch, which is what date arithmetic wants: the
/// day count of what the clock reads, or of 0 when it reads before the
/// epoch. Which reading that is, is the machine's.
pub fn today_days() -> (r: i64)
    ensures
        exists|secs: u64| r == epoch_days(secs),
        i64::MIN / 86_400 <= r <= i64::MAX / 86_400,
{
    let secs = match unix_secs() {
        Some(s) => s,
        None => 0,
    };
    days_since_epoch(secs)
}

/// Today as `YYYYMMDD`, UTC — the form yt-dlp reads dates in.
pub fn today() -> (r: String)
    ensures
        exists|d: int| i64::MIN / 86_400 <= d <= i64::MAX / 86_400 && r@ == stamp_of(d),
{
    let days = today_days();
    proof {
        let z = days + 719_468;
        assert(fits(z));
        assert(fits(z - 146_096));
        assert(fits(z / 146_097 * 400 + 400)) by (nonlinear_arith)
            requires -200_000_000_000_000 <= z <= 200_000_000_000_000;
    }
    day_stamp(days)
}

/// A `YYYYMMDD` as days since the epoch, so two dates can be subtracted.
/// `None` for anything that is not one.
pub fn days_of(date: &str) -> (r: Option<i64>)
    ensures
        match r {
            Some(n) => days_of_date(date@) == Some(n as int),
            None => days_of_date(date@) is None,
        },
{
    let s = text::chars_of(date);
    if s.len() != 8 {
        return None;
    }
    let mut i: usize = 0;
    while i < 8
        invariant
            s@ == date@,
            s@.len() == 8,
            i <= 8,
            forall|k: int| 0 <= k < i ==> seqs::is_digit(#[trigger] s@[k]),
        decreases 8 - i,
    {
        if !('0' <= s[i] && s[i] <= '9') {
            proof {
                assert(!seqs::is_digit(s@[i as int]));
            }
            return None;
        }
        i += 1;
    }
    let y = number(s.as_slice(), 0, 4);
    let m = number(s.as_slice(), 4, 6);
    let d = number(s.as_slice(), 6, 8);
    if m < 1 || m > 12 || d < 1 || d > days_in_month(y, m) {
        return None;
    }
    proof {
        assert(0 <= y <= 9999 && 0 <= m <= 99 && 0 <= d <= 99);
        lemma_days_before_fits(y as int, m as int, d as int);
    }
    Some(days_from_civil(y, m, d))
}

/// How many days month `m` of year `y` has.
pub fn days_in_month(y: i64, m: i64) -> (r: i64)
    requires
        0 <= y,
    ensures
        r == month_days(y as int, m as int),
{
    if m == 2 {
        if (y % 4 == 0 && y % 100 != 0) || y % 400 == 0 {
            29
        } else {
            28
        }
    } else if m == 4 || m == 6 || m == 9 || m == 11 {
        30
    } else {
        31
    }
}

/// The number the digits of `s` from `a` up to `b` spell.
fn number(s: &[char], a: usize, b: usize) -> (r: i64)
    requires
        a <= b <= s@.len(),
        b - a <= 4,
        forall|k: int| a <= k < b ==> seqs::is_digit(#[trigger] s@[k]),
    ensures
        r as int == digits_at(s@, a as int, b as int),
        0 <= r < pow10(b - a),
{
    let mut r: i64 = 0;
    let mut i = a;
    proof {
        assert(s@.subrange(a as int, a as int) =~= Seq::<char>::empty());
    }
    while i < b
        invariant
            a <= i <= b <= s@.len(),
            b - a <= 4,
            forall|k: int| a <= k < b ==> seqs::is_digit(#[trigger] s@[k]),
            r as int == digits_at(s@, a as int, i as int),
            0 <= r < pow10(i - a),
        decreases b - i,
    {
        let c = s[i];
        proof {
            assert(s@.subrange(a as int, i + 1) =~= s@.subrange(a as int, i as int).push(c));
            seqs::lemma_digits_push(s@.subrange(a as int, i as int), c);
            assert(seqs::is_digit(s@[i as int]));
        }
        r = r * 10 + (c as u32 - '0' as u32) as i64;
        i += 1;
    }
    assert(0 <= r < pow10(b - a));
    r
}

spec fn pow10(k: int) -> int {
    if k <= 0 { 1 } else if k == 1 { 10 } else if k == 2 { 100 } else if k == 3 { 1000 } else { 10_000 }
}

/// Any date of four-digit year and two-digit month and day is within reach.
proof fn lemma_days_before_fits(y: int, m: int, d: int)
    requires
        0 <= y <= 9999,
        0 <= m <= 99,
        0 <= d <= 99,
    ensures
        days_before_fits(y, m, d),
{
    let y1 = y - if m <= 2 { 1int } else { 0int };
    lemma_floor(y1, 400);
    let era = y1 / 400;
    assert(-1 <= era <= 25) by (nonlinear_arith)
        requires era == y1 / 400, -1 <= y1 <= 9999;
    let yoe = y1 - era * 400;
    assert(0 <= yoe < 400) by (nonlinear_arith)
        requires era == y1 / 400, yoe == y1 - era * 400;
}

/// The url schemes a pasted line may start with.
pub open spec fn is_url_line(line: Seq<char>) -> bool {
    ||| seqs::starts_with(line, "http://"@)
    ||| seqs::starts_with(line, "https://"@)
    ||| seqs::starts_with(line, "ftp://"@)
    ||| seqs::starts_with(line, "ftps://"@)
    ||| seqs::starts_with(line, "magnet:?"@)
}

/// The urls among the first lines, trimmed, first occurrence kept.
pub open spec fn urls_among(lines: Seq<Seq<char>>) -> Seq<Seq<char>>
    decreases lines.len(),
{
    if lines.len() == 0 {
        seq![]
    } else {
        let before = urls_among(lines.drop_last());
        let line = seqs::trim(lines.last());
        if is_url_line(line) && !before.contains(line) {
            before.push(line)
        } else {
            before
        }
    }
}

proof fn lemma_urls_among(lines: Seq<Seq<char>>)
    ensures
        urls_among(lines).no_duplicates(),
        forall|u: Seq<char>| #[trigger] urls_among(lines).contains(u) <==> (is_url_line(u) && exists|i: int|
            0 <= i < lines.len() && seqs::trim(#[trigger] lines[i]) == u),
    decreases lines.len(),
{
    if lines.len() > 0 {
        let init = lines.drop_last();
        lemma_urls_among(init);
        let before = urls_among(init);
        let line = seqs::trim(lines.last());
        assert forall|u: Seq<char>| #[trigger] urls_among(lines).contains(u) <==> (is_url_line(u) && exists|i: int|
            0 <= i < lines.len() && seqs::trim(#[trigger] lines[i]) == u) by {
            if urls_among(lines).contains(u) {
                if before.contains(u) {
                    let i = choose|i: int| 0 <= i < init.len() && seqs::trim(#[trigger] init[i]) == u;
                    assert(lines[i] == init[i]);
                } else {
                    assert(u == line);
                    assert(lines[lines.len() - 1] == lines.last());
                }
            }
            if is_url_line(u) && exists|i: int| 0 <= i < lines.len() && seqs::trim(#[trigger] lines[i]) == u {
                let i = choose|i: int| 0 <= i < lines.len() && seqs::trim(#[trigger] lines[i]) == u;
                if i < lines.len() - 1 {
                    assert(init[i] == lines[i]);
                    assert(before.contains(u));
                    if is_url_line(line) && !before.contains(line) {
                        assert(before.push(line)[before.index_of(u)] == u);
                    }
                } else {
                    if before.contains(u) {
                        if is_url_line(line) && !before.contains(line) {
                            assert(before.push(line)[before.index_of(u)] == u);
                        }
                    } else {
                        assert(before.push(line)[before.len() as int] == u);
                    }
                }
            }
        }
    }
}

/// Urls in pasted text, in the order they appear and without repeats. One per
/// line: a line that is not a url is a note, a title or a stray word, and
/// queueing it would only fail.
pub fn urls_in(text: &str) -> (r: Vec<String>)
    ensures
        strings(r@) == urls_among(seqs::lines(text@)),
        strings(r@).no_duplicates(),
        forall|u: Seq<char>| #[trigger] strings(r@).contains(u) <==> (is_url_line(u) && exists|i: int|
            0 <= i < seqs::lines(text@).len() && seqs::trim(#[trigger] seqs::lines(text@)[i]) == u),
{
    let chars = text::chars_of(text);
    let ls = text::lines(chars.as_slice());
    let mut found: Vec<Vec<char>> = Vec::new();
    let mut r: Vec<String> = Vec::new();
    let schemes: [&str; 5] = ["http://", "https://", "ftp://", "ftps://", "magnet:?"];
    let mut i: usize = 0;
    while i < ls.len()
        invariant
            i <= ls@.len(),
            seqs::views(ls@) == seqs::lines(text@),
            seqs::views(found@) == urls_among(seqs::views(ls@).take(i as int)),
            strings(r@) == seqs::views(found@),
        decreases ls@.len() - i,
    {
        let line = text::trim(ls[i].as_slice());
        let is_url = text::starts_with(line.as_slice(), text::chars_of("http://").as_slice())
            || text::starts_with(line.as_slice(), text::chars_of("https://").as_slice())
            || text::starts_with(line.as_slice(), text::chars_of("ftp://").as_slice())
            || text::starts_with(line.as_slice(), text::chars_of("ftps://").as_slice())
            || text::starts_with(line.as_slice(), text::chars_of("magnet:?").as_slice());
        let mut seen = false;
        let mut j: usize = 0;
        while j < found.len()
            invariant
                j <= found@.len(),
                seen == exists|k: int| 0 <= k < j && found@[k]@ == line@,
            decreases found@.len() - j,
        {
            if text::same(found[j].as_slice(), line.as_slice()) {
                seen = true;
            }
            j += 1;
        }
        proof {
            let ls_v = seqs::views(ls@);
            assert(ls_v.take(i + 1).drop_last() =~= ls_v.take(i as int));
            assert(ls_v[i as int] == ls@[i as int]@);
            assert(ls_v.take(i + 1).last() == ls@[i as int]@);
            assert(seen == seqs::views(found@).contains(line@)) by {
                if seen {
                    let k = choose|k: int| 0 <= k < found@.len() && found@[k]@ == line@;
                    assert(seqs::views(found@)[k] == line@);
                }
                if seqs::views(found@).contains(line@) {
                    let k = choose|k: int| 0 <= k < found@.len() && seqs::views(found@)[k] == line@;
                    assert(found@[k]@ == line@);
                }
            }
        }
        if is_url && !seen {
            let s = text::string_of(line.as_slice());
            proof {
                assert(seqs::views(found@.push(line)) =~= seqs::views(found@).push(line@));
                assert(strings(r@.push(s)) =~= strings(r@).push(s@));
            }
            found.push(line);
            r.push(s);
        }
        i += 1;
    }
    proof {
        assert(seqs::views(ls@).take(ls@.len() as int) =~= seqs::views(ls@));
        lemma_urls_among(seqs::lines(text@));
    }
    r
}

} // verus!
