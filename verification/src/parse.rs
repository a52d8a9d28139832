//! What the backends print: byte sizes, progress lines and the names of the
//! files they write.
use vstd::prelude::*;

use crate::seqs;
use crate::text;

verus! {

/// `10^k`.
pub open spec fn pow10(k: nat) -> nat
    decreases k,
{
    if k == 0 {
        1
    } else {
        10 * pow10((k - 1) as nat)
    }
}

/// `1024^k`.
pub open spec fn pow1024(k: nat) -> nat
    decreases k,
{
    if k == 0 {
        1
    } else {
        1024 * pow1024((k - 1) as nat)
    }
}

/// Digits and dots as a decimal number reads them: at most one point, at
/// least one digit. `(whole, fraction)` digits.
pub open spec fn decimal_parts(s: Seq<char>) -> Option<(Seq<char>, Seq<char>)> {
    match seqs::find_any(s, seq!['.']) {
        None => if s.len() > 0 && seqs::all_digits(s) {
            Some((s, seq![]))
        } else {
            None
        },
        Some(i) => {
            let a = s.take(i as int);
            let b = s.skip(i + 1 as int);
            if seqs::all_digits(a) && seqs::all_digits(b) && a.len() + b.len() > 0 {
                Some((a, b))
            } else {
                None
            }
        },
    }
}

/// The whole number of bytes in `whole.fraction × scale`, rounded down.
pub open spec fn scaled(whole: Seq<char>, fraction: Seq<char>, scale: nat) -> nat {
    seqs::digits_value(whole) * scale + seqs::digits_value(fraction) * scale / pow10(
        fraction.len(),
    )
}

/// A count of bytes as a `u64` holds it: past the top it stays at the top.
pub open spec fn capped(n: nat) -> u64 {
    if n > u64::MAX {
        u64::MAX
    } else {
        n as u64
    }
}

/// The digits-and-dots number at the front of `s`, scaled, or nothing when
/// those characters are not a number.
pub open spec fn times_scale(s: Seq<char>, scale: nat) -> Option<u64> {
    match decimal_parts(s) {
        Some((a, b)) => Some(capped(scaled(a, b, scale))),
        None => None,
    }
}

/// `s` with every trailing copy of `p` removed.
pub open spec fn trim_end_str(s: Seq<char>, p: Seq<char>) -> Seq<char>
    decreases s.len(),
{
    if p.len() > 0 && seqs::ends_with(s, p) {
        trim_end_str(s.take(s.len() - p.len()), p)
    } else {
        s
    }
}

/// Where the number at the front of `s` ends: the first character that is
/// neither a digit nor a point.
pub open spec fn number_end(s: Seq<char>) -> nat
    decreases s.len(),
{
    if s.len() > 0 && (seqs::is_digit(s[0]) || s[0] == '.') {
        1 + number_end(s.drop_first())
    } else {
        0
    }
}

/// The multiplier a unit letter stands for: binary prefixes, any case.
pub open spec fn unit_scale(unit: Seq<char>) -> nat {
    if unit.len() == 0 {
        1
    } else {
        let c = seqs::ascii_upper(unit[0]);
        if c == 'K' {
            pow1024(1)
        } else if c == 'M' {
            pow1024(2)
        } else if c == 'G' {
            pow1024(3)
        } else if c == 'T' {
            pow1024(4)
        } else {
            1
        }
    }
}

/// `5.0MiB`, `1.2GiB/s`, `512KB` as a whole number of bytes.
pub open spec fn size_of(s: Seq<char>) -> Option<u64> {
    let t = trim_end_str(seqs::trim(s), seq!['/', 's']);
    let k = number_end(t);
    times_scale(t.take(k as int), unit_scale(seqs::trim(t.skip(k as int))))
}

proof fn lemma_pow10_pos(k: nat)
    ensures
        pow10(k) >= 1,
    decreases k,
{
    if k > 0 {
        lemma_pow10_pos((k - 1) as nat);
    }
}

/// The value of a run of digits, read from the front.
#[verifier::spinoff_prover]
proof fn lemma_digits_front(s: Seq<char>)
    requires
        s.len() > 0,
    ensures
        seqs::digits_value(s) == ((s[0] as u32 - '0' as u32) as nat) * pow10((s.len() - 1) as nat)
            + seqs::digits_value(s.drop_first()),
    decreases s.len(),
{
    if s.len() == 1 {
        assert(s.drop_first() =~= Seq::<char>::empty());
        assert(s.drop_last() =~= Seq::<char>::empty());
        assert(s.last() == s[0]);
        assert(pow10(0) == 1);
        assert(seqs::digits_value(Seq::<char>::empty()) == 0);
        let d0 = (s[0] as u32 - '0' as u32) as nat;
        assert(seqs::digits_value(s) == seqs::digits_value(s.drop_last()) * 10 + ((s.last() as u32 - '0' as u32) as nat));
        assert(seqs::digits_value(s) == d0);
        assert(d0 * pow10(0) == d0);
    } else {
        lemma_digits_front(s.drop_last());
        assert(s.drop_last().drop_first() =~= s.drop_first().drop_last());
        assert(s.drop_first().last() == s.last());
        assert(s.drop_last()[0] == s[0]);
        let d0 = (s[0] as u32 - '0' as u32) as nat;
        let p = pow10((s.len() - 2) as nat);
        assert(((s.len() - 1) as nat - 1) as nat == (s.len() - 2) as nat);
        assert(pow10((s.len() - 1) as nat) == 10 * p);
        assert(seqs::digits_value(s) == seqs::digits_value(s.drop_last()) * 10 + ((s.last() as u32 - '0' as u32) as nat));
        assert(seqs::digits_value(s.drop_first()) == seqs::digits_value(s.drop_first().drop_last()) * 10 + ((s.last() as u32 - '0' as u32) as nat));
        assert((d0 * p + seqs::digits_value(s.drop_first().drop_last())) * 10 == d0 * (10 * p) + seqs::digits_value(s.drop_first().drop_last()) * 10) by (nonlinear_arith);
        assert(seqs::digits_value(s.drop_last()) == d0 * p + seqs::digits_value(s.drop_first().drop_last()));
        assert(d0 * pow10((s.len() - 1) as nat) == d0 * (10 * p));
    }
}

/// The fraction of a scale, by Horner's rule from the last digit: what
/// `fraction_of` computes.
pub open spec fn horner(b: Seq<char>, scale: nat) -> nat
    decreases b.len(),
{
    if b.len() == 0 {
        0
    } else {
        (((b[0] as u32 - '0' as u32) as nat) * scale + horner(b.drop_first(), scale)) / 10
    }
}

proof fn lemma_horner(b: Seq<char>, scale: nat)
    requires
        seqs::all_digits(b),
    ensures
        horner(b, scale) == seqs::digits_value(b) * scale / pow10(b.len()),
        horner(b, scale) <= scale,
    decreases b.len(),
{
    if b.len() > 0 {
        let rest = b.drop_first();
        assert(seqs::all_digits(rest)) by {
            assert forall|i: int| 0 <= i < rest.len() implies seqs::is_digit(#[trigger] rest[i]) by {
                assert(rest[i] == b[i + 1]);
            }
        }
        lemma_horner(rest, scale);
        lemma_digits_front(b);
        assert(seqs::is_digit(b[0]));
        let d = (b[0] as u32 - '0' as u32) as nat;
        let p = pow10(rest.len());
        lemma_pow10_pos(rest.len());
        let v = seqs::digits_value(rest);
        lemma_digits_below(rest);
        let h = horner(rest, scale);
        assert(h == v * scale / p);
        assert(pow10(b.len()) == 10 * p);
        lemma_floor_step(d, scale, v, p, h);
        lemma_frac_bound(d, scale, v, p);
        assert(seqs::digits_value(b) == d * p + v);
        assert(horner(b, scale) == (d * scale + h) / 10);
        assert((d * p + v) * scale / (10 * p) <= scale) by (nonlinear_arith)
            requires
                d <= 9,
                v < p,
                p >= 1,
        {
            assert((d * p + v) * scale <= 10 * p * scale);
        }
        assert(seqs::digits_value(b) * scale == (d * p + v) * scale);
        assert(horner(b, scale) == seqs::digits_value(b) * scale / pow10(b.len()));
    } else {
        assert(pow10(0) == 1);
        assert(seqs::digits_value(b) == 0);
        assert(seqs::digits_value(b) * scale == 0);
    }
}

/// floor((d·s + floor(v·s/p)) / 10) == floor((d·p + v)·s / (10·p)).
proof fn lemma_floor_step(d: nat, scale: nat, v: nat, p: nat, h: nat)
    requires
        h == v * scale / p,
        p >= 1,
    ensures
        (d * scale + h) / 10 == (d * p + v) * scale / (10 * p),
{
    let x = v * scale;
    let q = x / p;
    let r = x % p;
    vstd::arithmetic::div_mod::lemma_fundamental_div_mod(x as int, p as int);
    assert(x == q * p + r && 0 <= r < p) by (nonlinear_arith)
        requires x == p * (x / p) + (x % p), q == x / p, r == x % p, p >= 1;
    let y = d * scale + q;
    let yq = y / 10;
    let yr = y % 10;
    assert(y == yq * 10 + yr && 0 <= yr < 10);
    assert((d * p + v) * scale == yq * (10 * p) + (yr * p + r)) by (nonlinear_arith)
        requires x == v * scale, x == q * p + r, y == d * scale + q, y == yq * 10 + yr;
    assert(0 <= yr * p + r < 10 * p) by (nonlinear_arith)
        requires 0 <= yr < 10, 0 <= r < p;
    vstd::arithmetic::div_mod::lemma_fundamental_div_mod_converse_div(
        ((d * p + v) * scale) as int, (10 * p) as int, yq as int, (yr * p + r) as int);
}

/// A fraction of a scale is at most the scale.
proof fn lemma_frac_bound(d: nat, scale: nat, v: nat, p: nat)
    requires
        d <= 9,
        v < p,
        p >= 1,
    ensures
        (d * p + v) * scale / (10 * p) <= scale,
{
    assert((d * p + v) * scale <= 10 * p * scale) by (nonlinear_arith)
        requires d <= 9, v < p;
    assert((d * p + v) * scale / (10 * p) <= 10 * p * scale / (10 * p)) by (nonlinear_arith)
        requires (d * p + v) * scale <= 10 * p * scale, p >= 1;
    assert(10 * p * scale / (10 * p) == scale) by (nonlinear_arith)
        requires p >= 1;
}

proof fn lemma_digits_below(s: Seq<char>)
    requires
        seqs::all_digits(s),
    ensures
        seqs::digits_value(s) < pow10(s.len()),
    decreases s.len(),
{
    if s.len() > 0 {
        lemma_digits_front(s);
        let rest = s.drop_first();
        assert(seqs::all_digits(rest)) by {
            assert forall|i: int| 0 <= i < rest.len() implies seqs::is_digit(#[trigger] rest[i]) by {
                assert(rest[i] == s[i + 1]);
            }
        }
        lemma_digits_below(rest);
        assert(seqs::is_digit(s[0]));
        let d = (s[0] as u32 - '0' as u32) as nat;
        let p = pow10(rest.len());
        assert(d * p + seqs::digits_value(rest) < 10 * p) by (nonlinear_arith)
            requires d <= 9, seqs::digits_value(rest) < p;
    }
}


proof fn lemma_pow1024(k: nat)
    requires
        k <= 4,
    ensures
        1 <= pow1024(k) <= 0x100_0000_0000,
        pow1024(0) == 1,
        pow1024(1) == 1024,
        pow1024(2) == 1024 * 1024,
        pow1024(3) == 1024 * 1024 * 1024,
        pow1024(4) == 1024 * 1024 * 1024 * 1024,
{
    assert(pow1024(0) == 1);
    assert(pow1024(1) == 1024);
    assert(pow1024(2) == 1024 * 1024);
    assert(pow1024(3) == 1024 * 1024 * 1024);
    assert(pow1024(4) == 1024 * 1024 * 1024 * 1024);
}

/// The digits-and-dots number in `s` times `scale`, rounded down and capped
/// at the top of a `u64`; nothing when `s` is not such a number.
pub fn number_times(s: &[char], scale: u64) -> (r: Option<u64>)
    requires
        1 <= scale,
    ensures
        r == times_scale(s@, scale as nat),
{
    let dot = ['.'];
    proof {
        assert(dot@ =~= seq!['.']);
        seqs::lemma_find_any(s@, seq!['.'], 0);
    }
    let n = s.len();
    let (a, b) = match text::find_any(s, &dot) {
        Some(i) => (text::slice_of(s, 0, i), text::slice_of(s, i + 1, n)),
        None => (text::slice_of(s, 0, s.len()), Vec::new()),
    };
    proof {
        match seqs::find_any(s@, seq!['.']) {
            Some(i) => {
                assert(a@ =~= s@.take(i as int));
                assert(b@ =~= s@.skip(i + 1 as int));
            },
            None => {
                assert(a@ =~= s@);
                assert(b@ =~= Seq::<char>::empty());
            },
        }
    }
    let ghost parts = decimal_parts(s@);
    proof {
        // What the spec reads the number as, whichever way `find_any` went.
        match seqs::find_any(s@, seq!['.']) {
            Some(i) => {
                assert(parts is Some ==> parts == Some((a@, b@)));
                assert(parts is None <==> !(seqs::all_digits(a@) && seqs::all_digits(b@) && a@.len() + b@.len() > 0));
            },
            None => {
                assert(parts is Some ==> parts == Some((a@, b@)));
                assert(parts is None <==> !(seqs::all_digits(a@) && seqs::all_digits(b@) && a@.len() + b@.len() > 0));
            },
        }
    }
    if a.len() + b.len() == 0 {
        return None;
    }
    // The whole part, held at 2^64 once it gets there: past that the answer
    // is the top of a u64 whatever comes after.
    let top: u128 = 0x1_0000_0000_0000_0000;
    let mut w: u128 = 0;
    let mut i: usize = 0;
    proof {
        assert(a@.take(0) =~= Seq::<char>::empty());
    }
    while i < a.len()
        invariant
            i <= a@.len(),
            top == 0x1_0000_0000_0000_0000u128,
            parts == decimal_parts(s@),
            parts is None <==> !(seqs::all_digits(a@) && seqs::all_digits(b@) && a@.len() + b@.len() > 0),
            seqs::all_digits(a@.take(i as int)),
            w == if seqs::digits_value(a@.take(i as int)) < top { seqs::digits_value(a@.take(i as int)) } else { top as nat },
        decreases a@.len() - i,
    {
        let c = a[i];
        if !('0' <= c && c <= '9') {
            proof {
                assert(!seqs::is_digit(a@[i as int]));
                assert(!seqs::all_digits(a@));
            }
            return None;
        }
        proof {
            assert(a@.take(i + 1 as int) =~= a@.take(i as int).push(c));
            seqs::lemma_digits_push(a@.take(i as int), c);
            assert forall|k: int| 0 <= k < i + 1 implies seqs::is_digit(#[trigger] a@.take(i + 1 as int)[k]) by {
                if k < i {
                    assert(a@.take(i + 1 as int)[k] == a@.take(i as int)[k]);
                }
            }
        }
        let d = (c as u32 - '0' as u32) as u128;
        w = if w >= top { top } else if w * 10 + d >= top { top } else { w * 10 + d };
        i += 1;
    }
    let mut j: usize = 0;
    while j < b.len()
        invariant
            j <= b@.len(),
            parts == decimal_parts(s@),
            parts is None <==> !(seqs::all_digits(a@) && seqs::all_digits(b@) && a@.len() + b@.len() > 0),
            forall|k: int| 0 <= k < j ==> seqs::is_digit(#[trigger] b@[k]),
        decreases b@.len() - j,
    {
        if !('0' <= b[j] && b[j] <= '9') {
            proof {
                assert(!seqs::is_digit(b@[j as int]));
                assert(!seqs::all_digits(b@));
            }
            return None;
        }
        j += 1;
    }
    // The fraction by Horner's rule from its last digit; never more than one
    // whole `scale`.
    let mut x: u128 = 0;
    let mut k: usize = b.len();
    proof {
        assert(b@.skip(k as int) =~= Seq::<char>::empty());
    }
    while k > 0
        invariant
            k <= b@.len(),
            seqs::all_digits(b@),
            1 <= scale,
            x == horner(b@.skip(k as int), scale as nat),
            x <= scale,
        decreases k,
    {
        let c = b[k - 1];
        proof {
            assert(b@.skip(k - 1).drop_first() =~= b@.skip(k as int));
            assert(b@.skip(k - 1)[0] == c);
            assert(seqs::is_digit(b@[k - 1]));
            assert(seqs::all_digits(b@.skip(k - 1))) by {
                assert forall|m: int| 0 <= m < b@.skip(k - 1).len() implies seqs::is_digit(#[trigger] b@.skip(k - 1)[m]) by {
                    assert(b@.skip(k - 1)[m] == b@[k - 1 + m]);
                }
            }
            lemma_horner(b@.skip(k - 1), scale as nat);
        }
        let d = (c as u32 - '0' as u32) as u128;
        assert(d <= 9);
        assert(d * scale <= 9 * 0xffff_ffff_ffff_ffffu128) by (nonlinear_arith)
            requires d <= 9, scale <= 0xffff_ffff_ffff_ffffu64;
        x = (d * scale as u128 + x) / 10;
        k -= 1;
    }
    proof {
        assert(b@.skip(0) =~= b@);
        lemma_horner(b@, scale as nat);
        assert(a@.take(a@.len() as int) =~= a@);
        assert(seqs::all_digits(b@));
    }
    assert(w * scale as u128 <= 0x1_0000_0000_0000_0000u128 * 0xffff_ffff_ffff_ffffu128) by (nonlinear_arith)
        requires w <= 0x1_0000_0000_0000_0000u128, scale <= 0xffff_ffff_ffff_ffffu64;
    let total: u128 = w * scale as u128 + x;
    proof {
        let v = seqs::digits_value(a@);
        assert(scaled(a@, b@, scale as nat) == v * scale + x);
        if v >= top {
            assert(v * scale >= top) by (nonlinear_arith) requires v >= top, scale >= 1;
            assert(w * scale >= top) by (nonlinear_arith) requires w == top, scale >= 1;
        } else {
            assert(w == v);
        }
    }
    if total > u64::MAX as u128 {
        Some(u64::MAX)
    } else {
        Some(total as u64)
    }
}

/// The multiplier a unit's first letter stands for.
fn unit_scale_of(unit: &[char]) -> (r: u64)
    ensures
        r as nat == unit_scale(unit@),
        1 <= r <= 0x100_0000_0000,
{
    proof {
        lemma_pow1024(4);
    }
    if unit.len() == 0 {
        1
    } else {
        let u = unit[0];
        proof {
            assert(seqs::ascii_upper('k') == 'K');
            assert(seqs::ascii_upper('m') == 'M');
            assert(seqs::ascii_upper('g') == 'G');
            assert(seqs::ascii_upper('t') == 'T');
        }
        if u == 'K' || u == 'k' {
            assert(unit@[0] == u);
            assert(unit_scale(unit@) == pow1024(1));
            1024
        } else if u == 'M' || u == 'm' {
            assert(unit@[0] == u);
            assert(unit_scale(unit@) == pow1024(2));
            1024 * 1024
        } else if u == 'G' || u == 'g' {
            assert(unit@[0] == u);
            assert(unit_scale(unit@) == pow1024(3));
            1024 * 1024 * 1024
        } else if u == 'T' || u == 't' {
            assert(unit@[0] == u);
            assert(unit_scale(unit@) == pow1024(4));
            1024 * 1024 * 1024 * 1024
        } else {
            proof {
                let up = seqs::ascii_upper(u);
                if 'a' <= u && u <= 'z' {
                    assert(up as u32 == (u as u32) - 32);
                }
                assert(up != 'K' && up != 'M' && up != 'G' && up != 'T');
            }
            1
        }
    }
}

/// `5.0MiB`, `1.2GiB/s`, `512KB` -> whole bytes. Both tools use binary
/// prefixes.
pub fn bytes(s: &str) -> (r: Option<u64>)
    ensures
        r == size_of(s@),
{
    let c = text::chars_of(s);
    let mut t = text::trim(c.as_slice());
    let per = ['/', 's'];
    proof {
        assert(per@ =~= seq!['/', 's']);
    }
    while text::ends_with(t.as_slice(), &per)
        invariant
            per@ == seq!['/', 's'],
            trim_end_str(seqs::trim(s@), seq!['/', 's']) == trim_end_str(t@, seq!['/', 's']),
        decreases t@.len(),
    {
        t = text::slice_of(t.as_slice(), 0, t.len() - 2);
    }
    assert(trim_end_str(t@, seq!['/', 's']) == t@);
    let mut k: usize = 0;
    proof {
        assert(t@.skip(0) =~= t@);
    }
    while k < t.len() && (('0' <= t[k] && t[k] <= '9') || t[k] == '.')
        invariant
            k <= t@.len(),
            number_end(t@) == k + number_end(t@.skip(k as int)),
        decreases t@.len() - k,
    {
        proof {
            assert(t@.skip(k as int).drop_first() =~= t@.skip(k + 1 as int));
        }
        k += 1;
    }
    proof {
        assert(t@.skip(0) =~= t@);
    }
    let unit = text::trim(text::slice_of(t.as_slice(), k, t.len()).as_slice());
    let scale = unit_scale_of(unit.as_slice());
    proof {
        lemma_pow1024(4);
        if k < t@.len() {
            assert(t@.skip(k as int)[0] == t@[k as int]);
        }
        assert(number_end(t@.skip(k as int)) == 0);
        assert(t@.skip(k as int) =~= t@.subrange(k as int, t@.len() as int));
        assert(t@.take(k as int) =~= t@.subrange(0, k as int));
        let tt = trim_end_str(seqs::trim(s@), seq!['/', 's']);
        assert(tt == t@);
        assert(number_end(tt) == k);
        assert(unit@ == seqs::trim(tt.skip(k as int)));
        assert(unit_scale(unit@) == scale as nat);
    }
    let front = text::slice_of(t.as_slice(), 0, k);
    proof {
        assert(front@ == t@.take(k as int));
    }
    number_times(front.as_slice(), scale)
}


// ---------------------------------------------------------------------------
// Sizes for people
// ---------------------------------------------------------------------------

/// How many times `human` divides by 1024: while at least 1024 is left and
/// a larger unit exists.
pub open spec fn unit_steps(n: nat, k: nat) -> nat
    decreases 4 - k,
{
    if k >= 4 || n < pow1024(k + 1) {
        k
    } else {
        unit_steps(n, k + 1)
    }
}

/// `n / d` rounded to the nearest whole number, ties to the even one.
pub open spec fn round_even(n: nat, d: nat) -> nat {
    let q = n / d;
    let r = n % d;
    if 2 * r > d || (2 * r == d && q % 2 == 1) {
        q + 1
    } else {
        q
    }
}

/// The unit names, smallest first.
pub open spec fn unit_name(k: nat) -> Seq<char> {
    if k == 0 {
        "B"@
    } else if k == 1 {
        "KiB"@
    } else if k == 2 {
        "MiB"@
    } else if k == 3 {
        "GiB"@
    } else {
        "TiB"@
    }
}

/// `5.0MiB` for 5242880: one decimal, rounded half to even, in the largest
/// unit that still leaves at least one.
pub open spec fn human_of(n: nat) -> Seq<char> {
    let k = unit_steps(n, 0);
    let tenths = round_even(n * 10, pow1024(k));
    seqs::decimal(tenths / 10) + seq!['.', seqs::digit_char(tenths % 10)] + unit_name(k)
}

/// `5.0MiB` for 5242880.
pub fn human(n: u64) -> (r: String)
    ensures
        r@ == human_of(n as nat),
{
    proof {
        lemma_pow1024(4);
    }
    let mut k: u64 = 0;
    let mut d: u128 = 1;
    while k < 4 && n as u128 >= d * 1024
        invariant
            k <= 4,
            d == pow1024(k as nat),
            unit_steps(n as nat, 0) == unit_steps(n as nat, k as nat),
            pow1024(4) == 1024 * 1024 * 1024 * 1024,
        decreases 4 - k,
    {
        proof {
            lemma_pow1024(k as nat);
        }
        d = d * 1024;
        k += 1;
    }
    proof {
        lemma_pow1024(k as nat);
    }
    let x: u128 = n as u128 * 10;
    let q = x / d;
    let rem = x % d;
    let t: u128 = if 2 * rem > d || (2 * rem == d && q % 2 == 1) { q + 1 } else { q };
    let mut v = text::decimal((t / 10) as u64);
    v.push('.');
    v.push(digit((t % 10) as u64));
    let unit = if k == 0 { "B" } else if k == 1 { "KiB" } else if k == 2 { "MiB" } else if k == 3 { "GiB" } else { "TiB" };
    let uc = text::chars_of(unit);
    text::push_all(&mut v, uc.as_slice());
    proof {
        assert(v@ =~= human_of(n as nat));
    }
    text::string_of(v.as_slice())
}

fn digit(d: u64) -> (c: char)
    requires
        d < 10,
    ensures
        c == seqs::digit_char(d as nat),
{
    if d == 0 { '0' } else if d == 1 { '1' } else if d == 2 { '2' } else if d == 3 { '3' }
    else if d == 4 { '4' } else if d == 5 { '5' } else if d == 6 { '6' } else if d == 7 { '7' }
    else if d == 8 { '8' } else { '9' }
}


// ---------------------------------------------------------------------------
// Progress lines
// ---------------------------------------------------------------------------

/// What one progress line says, as the tool printed it. The percent is
/// left as text: reading it as a number is the caller's business.
pub struct ProgressLine {
    /// The percent as printed, without the `%`; `None` when the line gave none.
    pub percent: Option<String>,
    pub done: String,
    pub total: String,
    pub speed: String,
    pub eta: String,
    /// Torrents only: the upload rate, and in brackets the session total.
    pub upload: String,
    pub uploaded: String,
    pub peers: u32,
    pub seeders: Option<u32>,
}

/// The value after `key`, up to the next space or `]`.
pub open spec fn field_of(line: Seq<char>, key: Seq<char>) -> Option<Seq<char>> {
    match seqs::split_once(line, key) {
        Some((_, rest)) => Some(seqs::before_any(rest, seq![' ', ']'])),
        None => None,
    }
}

/// The value after `key` read as a `u32`.
pub open spec fn number_of(line: Seq<char>, key: Seq<char>) -> Option<nat> {
    match field_of(line, key) {
        Some(v) => seqs::parse_unsigned(v, u32::MAX as nat),
        None => None,
    }
}

/// A field, or empty when the line has none.
pub open spec fn or_empty(v: Option<Seq<char>>) -> Seq<char> {
    match v {
        Some(v) => v,
        None => seq![],
    }
}

/// `s` without every leading copy of `p`.
pub open spec fn trim_start_str(s: Seq<char>, p: Seq<char>) -> Seq<char>
    decreases s.len(),
{
    if p.len() > 0 && seqs::starts_with(s, p) {
        trim_start_str(s.skip(p.len() as int), p)
    } else {
        s
    }
}

/// Value after `key`, up to the next space or `]`.
pub fn field(line: &[char], key: &[char]) -> (r: Option<Vec<char>>)
    ensures
        match field_of(line@, key@) {
            Some(v) => r matches Some(x) && x@ == v,
            None => r is None,
        },
{
    let stop = [' ', ']'];
    proof {
        assert(stop@ =~= seq![' ', ']']);
    }
    match text::split_once(line, key) {
        Some((_, rest)) => Some(text::before_any(rest.as_slice(), &stop)),
        None => None,
    }
}

/// The value after `key` as a number.
pub fn number(line: &[char], key: &[char]) -> (r: Option<u32>)
    ensures
        match r {
            Some(n) => number_of(line@, key@) == Some(n as nat),
            None => number_of(line@, key@) is None,
        },
{
    match field(line, key) {
        Some(v) => match text::parse_unsigned(v.as_slice(), u32::MAX as u64) {
            Some(n) => Some(n as u32),
            None => None,
        },
        None => None,
    }
}

fn strip_leading(s: &[char], p: &[char]) -> (r: Vec<char>)
    ensures
        r@ == trim_start_str(s@, p@),
{
    let mut t = text::slice_of(s, 0, s.len());
    proof {
        assert(t@ =~= s@);
    }
    if p.len() == 0 {
        return t;
    }
    while text::starts_with(t.as_slice(), p)
        invariant
            p@.len() > 0,
            trim_start_str(s@, p@) == trim_start_str(t@, p@),
        decreases t@.len(),
    {
        t = text::slice_of(t.as_slice(), p.len(), t.len());
        proof {
            assert(t@ =~= t@);
        }
    }
    t
}


/// The text of a progress line.
pub struct ProgressView {
    pub percent: Option<Seq<char>>,
    pub done: Seq<char>,
    pub total: Seq<char>,
    pub speed: Seq<char>,
    pub eta: Seq<char>,
    pub upload: Seq<char>,
    pub uploaded: Seq<char>,
    pub peers: u32,
    pub seeders: Option<u32>,
}

impl View for ProgressLine {
    type V = ProgressView;

    open spec fn view(&self) -> ProgressView {
        ProgressView {
            percent: match self.percent {
                Some(p) => Some(p@),
                None => None,
            },
            done: self.done@,
            total: self.total@,
            speed: self.speed@,
            eta: self.eta@,
            upload: self.upload@,
            uploaded: self.uploaded@,
            peers: self.peers,
            seeders: self.seeders,
        }
    }
}

impl ProgressLine {
    /// A torrent's line is the one that counts seeders or uploads.
    pub fn is_torrent(&self) -> (r: bool)
        ensures
            r == (self.seeders is Some || self.upload@.len() > 0),
    {
        self.seeders.is_some() || !self.upload.as_str().is_empty()
    }

    /// The peers that are not seeding.
    pub fn leechers(&self) -> (r: u32)
        ensures
            r == (match self.seeders {
                Some(s) => if self.peers >= s { (self.peers - s) as u32 } else { 0 },
                None => self.peers,
            }),
    {
        match self.seeders {
            Some(s) => if self.peers >= s { self.peers - s } else { 0 },
            None => self.peers,
        }
    }
}

/// A `u32` read from a field, if there is one that reads as one.
pub open spec fn u32_of(n: Option<nat>) -> Option<u32> {
    match n {
        Some(n) => Some(n as u32),
        None => None,
    }
}

/// `pct` percent of `total` bytes, rounded down: how much of a file a
/// printed percentage stands for.
pub open spec fn share_of(pct: Seq<char>, total: nat) -> Option<nat> {
    if total == 0 {
        Some(0)
    } else {
        match times_scale(pct, total) {
            Some(x) => Some((x / 100) as nat),
            None => None,
        }
    }
}

/// A count of tenths as `12.3`.
pub open spec fn tenths_text(t: nat) -> Seq<char> {
    seqs::decimal(t / 10) + seq!['.', seqs::digit_char(t % 10)]
}

/// The percent that `done` of `total` makes, to a tenth and rounded down,
/// when both read as sizes; an empty total is nothing done.
pub open spec fn sized_percent(done: Seq<char>, total: Seq<char>) -> Option<Seq<char>> {
    match (size_of(done), size_of(total)) {
        (Some(d), Some(t)) => Some(tenths_text(
            if t == 0 {
                0
            } else {
                capped(((d as nat) * 1000 / (t as nat)) as nat) as nat
            },
        )),
        _ => None,
    }
}

/// How much a yt-dlp line has fetched, which it only says as a percentage
/// of the total: empty while the total is unknown.
pub open spec fn fetched_of(pct: Seq<char>, total: Seq<char>) -> Seq<char> {
    match size_of(total) {
        Some(t) => match share_of(pct, t as nat) {
            Some(d) => human_of(d),
            None => seq![],
        },
        None => seq![],
    }
}

fn tenths(t: u64) -> (r: Vec<char>)
    ensures
        r@ == tenths_text(t as nat),
{
    let mut v = text::decimal(t / 10);
    v.push(digit_dot());
    v.push(digit(t % 10));
    v
}

fn digit_dot() -> (c: char)
    ensures
        c == '.',
{
    '.'
}

/// The percent `done` of `total` makes, when both are sizes.
fn percent_from_sizes(done: &[char], total: &[char]) -> (r: Option<String>)
    ensures
        match sized_percent(done@, total@) {
            Some(p) => r matches Some(x) && x@ == p,
            None => r is None,
        },
{
    let d = bytes(text::string_of(done).as_str());
    let t = bytes(text::string_of(total).as_str());
    match (d, t) {
        (Some(d), Some(t)) => {
            let q: u64 = if t == 0 {
                0
            } else {
                let x: u128 = d as u128 * 1000 / t as u128;
                if x > u64::MAX as u128 { u64::MAX } else { x as u64 }
            };
            Some(text::string_of(tenths(q).as_slice()))
        },
        _ => None,
    }
}

/// What `pct` percent of `total` comes to, written as a size.
fn fetched(pct: &[char], total: &[char]) -> (r: String)
    ensures
        r@ == fetched_of(pct@, total@),
{
    match bytes(text::string_of(total).as_str()) {
        Some(t) => {
            if t == 0 {
                human(0)
            } else {
                match number_times(pct, t) {
                    Some(x) => human(x / 100),
                    None => String::new(),
                }
            }
        },
        None => String::new(),
    }
}

/// `[#8a1f2b 12MiB/100MiB(12%) CN:1 SD:2 DL:5.0MiB UL:1.0MiB(30MiB) ETA:17s]`
/// as its parts: the sizes, the percent when printed, the rates, and for a
/// torrent its peers and upload.
pub open spec fn aria2_of(line: Seq<char>) -> Option<ProgressView> {
    if !seqs::starts_with(line, "[#"@) {
        None
    } else {
        let ws = seqs::words(line.skip(2));
        if ws.len() < 2 {
            None
        } else {
            match seqs::split_once(trim_start_str(ws[1], "SIZE:"@), seq!['/']) {
                None => None,
                Some((done, rest)) => {
                    let (total, percent) = match seqs::split_once(rest, seq!['(']) {
                        Some((t, p)) => (t, Some(seqs::strip_end(p, seq![')', '%']))),
                        None => (rest, sized_percent(done, rest)),
                    };
                    let up = field_of(line, "UL:"@);
                    Some(ProgressView {
                        percent,
                        done,
                        total,
                        speed: or_empty(field_of(line, "DL:"@)),
                        eta: or_empty(field_of(line, "ETA:"@)),
                        upload: match up {
                            Some(v) => seqs::before_any(v, seq!['(']),
                            None => seq![],
                        },
                        uploaded: match up {
                            Some(v) => match seqs::split_once(v, seq!['(']) {
                                Some((_, b)) => seqs::strip_end(b, seq![')']),
                                None => seq![],
                            },
                            None => seq![],
                        },
                        peers: match u32_of(number_of(line, "CN:"@)) {
                            Some(n) => n,
                            None => 0,
                        },
                        seeders: u32_of(number_of(line, "SD:"@)),
                    })
                },
            }
        }
    }
}

/// The index of the first word equal to `w`.
pub open spec fn word_index(ws: Seq<Seq<char>>, w: Seq<char>, i: nat) -> Option<nat>
    decreases ws.len() - i,
{
    if i >= ws.len() {
        None
    } else if ws[i as int] == w {
        Some(i)
    } else {
        word_index(ws, w, i + 1)
    }
}

/// The word right after the first `w`, or nothing.
pub open spec fn after_word(ws: Seq<Seq<char>>, w: Seq<char>) -> Seq<char> {
    match word_index(ws, w, 0) {
        Some(i) => if i + 1 < ws.len() {
            ws[i + 1 as int]
        } else {
            seq![]
        },
        None => seq![],
    }
}

/// The index of the first word ending with `%`.
pub open spec fn percent_index(ws: Seq<Seq<char>>, i: nat) -> Option<nat>
    decreases ws.len() - i,
{
    if i >= ws.len() {
        None
    } else if seqs::ends_with(ws[i as int], seq!['%']) {
        Some(i)
    } else {
        percent_index(ws, i + 1)
    }
}

/// The size after `of`, past a `~` that marks it an estimate; empty when
/// what stands there is not a size.
pub open spec fn total_of(ws: Seq<Seq<char>>) -> Seq<char> {
    let t = after_word(ws, "of"@);
    let t = if t == "~"@ {
        match word_index(ws, "of"@, 0) {
            Some(i) => if i + 2 < ws.len() {
                ws[i + 2 as int]
            } else {
                seq![]
            },
            None => seq![],
        }
    } else {
        t
    };
    if size_of(t) is Some {
        t
    } else {
        seq![]
    }
}

/// `[download]  12.3% of   10.00MiB at    5.00MiB/s ETA 00:20` as its parts.
pub open spec fn ytdlp_of(line: Seq<char>) -> Option<ProgressView> {
    if !seqs::starts_with(line, "[download]"@) {
        None
    } else {
        let ws = seqs::words(line);
        match percent_index(ws, 0) {
            None => None,
            Some(i) => Some(ProgressView {
                percent: Some(seqs::strip_end(ws[i as int], seq!['%'])),
                done: fetched_of(seqs::strip_end(ws[i as int], seq!['%']), total_of(ws)),
                total: total_of(ws),
                speed: after_word(ws, "at"@),
                eta: after_word(ws, "ETA"@),
                upload: seq![],
                uploaded: seq![],
                peers: 0,
                seeders: None,
            }),
        }
    }
}

fn find_word(ws: &Vec<Vec<char>>, w: &[char]) -> (r: Option<usize>)
    ensures
        match r {
            Some(i) => word_index(seqs::views(ws@), w@, 0) == Some(i as nat) && i < ws@.len(),
            None => word_index(seqs::views(ws@), w@, 0) is None,
        },
{
    let mut i: usize = 0;
    while i < ws.len()
        invariant
            i <= ws@.len(),
            word_index(seqs::views(ws@), w@, 0) == word_index(seqs::views(ws@), w@, i as nat),
        decreases ws@.len() - i,
    {
        proof {
            assert(seqs::views(ws@)[i as int] == ws@[i as int]@);
        }
        if text::same(ws[i].as_slice(), w) {
            return Some(i);
        }
        i += 1;
    }
    None
}

fn word_after(ws: &Vec<Vec<char>>, w: &[char]) -> (r: Vec<char>)
    ensures
        r@ == after_word(seqs::views(ws@), w@),
{
    match find_word(ws, w) {
        Some(i) => if i < ws.len() - 1 {
            proof {
                assert(seqs::views(ws@)[i + 1] == ws@[i + 1]@);
            }
            text::slice_of(ws[i + 1].as_slice(), 0, ws[i + 1].len())
        } else {
            Vec::new()
        },
        None => Vec::new(),
    }
}

/// `[download]  12.3% of   10.00MiB at    5.00MiB/s ETA 00:20`
pub fn ytdlp(line: &str) -> (r: Option<ProgressLine>)
    ensures
        match ytdlp_of(line@) {
            Some(v) => r matches Some(p) && p@ == v,
            None => r is None,
        },
{
    let l = text::chars_of(line);
    if !text::starts_with(l.as_slice(), text::chars_of("[download]").as_slice()) {
        return None;
    }
    let ws = text::words(l.as_slice());
    let mut i: usize = 0;
    let mut found = false;
    while i < ws.len() && !found
        invariant
            i <= ws@.len(),
            found ==> i < ws@.len() && seqs::ends_with(seqs::views(ws@)[i as int], seq!['%']),
            percent_index(seqs::views(ws@), 0) == percent_index(seqs::views(ws@), i as nat),
        decreases ws@.len() - i + (if found { 0int } else { 1int }),
    {
        proof {
            assert(seqs::views(ws@)[i as int] == ws@[i as int]@);
        }
        if text::ends_with(ws[i].as_slice(), text::one('%').as_slice()) {
            found = true;
        } else {
            i += 1;
        }
    }
    if !found {
        return None;
    }
    proof {
        assert(seqs::views(ws@)[i as int] == ws@[i as int]@);
        assert(percent_index(seqs::views(ws@), i as nat) == Some(i as nat));
    }
    let pct = text::strip_end(ws[i].as_slice(), text::one('%').as_slice());
    let percent = text::string_of(pct.as_slice());
    let of_word = text::chars_of("of");
    let mut total = word_after(&ws, of_word.as_slice());
    if text::same(total.as_slice(), text::chars_of("~").as_slice()) {
        total = match find_word(&ws, of_word.as_slice()) {
            Some(k) => if ws.len() >= 2 && k < ws.len() - 2 {
                proof {
                    assert(seqs::views(ws@)[k + 2] == ws@[k + 2]@);
                }
                text::slice_of(ws[k + 2].as_slice(), 0, ws[k + 2].len())
            } else {
                Vec::new()
            },
            None => Vec::new(),
        };
    }
    proof {
        let vs = seqs::views(ws@);
        let t0 = after_word(vs, "of"@);
        let t1 = if t0 == "~"@ {
            match word_index(vs, "of"@, 0) {
                Some(k) => if k + 2 < vs.len() { vs[k + 2 as int] } else { seq![] },
                None => seq![],
            }
        } else {
            t0
        };
        assert(total@ == t1);
    }
    let total_text = text::string_of(total.as_slice());
    let total = if bytes(total_text.as_str()).is_some() { total_text } else { String::new() };
    let done = fetched(pct.as_slice(), text::chars_of(total.as_str()).as_slice());
    let speed = text::string_of(word_after(&ws, text::chars_of("at").as_slice()).as_slice());
    let eta = text::string_of(word_after(&ws, text::chars_of("ETA").as_slice()).as_slice());
    let p = ProgressLine {
        percent: Some(percent),
        done,
        total,
        speed,
        eta,
        upload: String::new(),
        uploaded: String::new(),
        peers: 0,
        seeders: None,
    };
    proof {
        assert(p@.percent == Some(seqs::strip_end(seqs::views(ws@)[i as int], seq!['%'])));
    }
    Some(p)
}

/// `[#8a1f2b 12MiB/100MiB(12%) CN:1 SD:2 DL:5.0MiB UL:1.0MiB(30MiB) ETA:17s]`.
/// `SD` and `UL` only appear for torrents, and a torrent prints no `(12%)`
/// until its metadata arrives — the sizes are the reliable part.
pub fn aria2(line: &str) -> (r: Option<ProgressLine>)
    ensures
        match aria2_of(line@) {
            Some(v) => r matches Some(p) && p@ == v,
            None => r is None,
        },
{
    let l = text::chars_of(line);
    proof {
        reveal_strlit("[#");
    }
    if !text::starts_with(l.as_slice(), text::chars_of("[#").as_slice()) {
        return None;
    }
    let ws = text::words(text::slice_of(l.as_slice(), 2, l.len()).as_slice());
    proof {
        assert(l@.subrange(2, l@.len() as int) =~= l@.skip(2));
    }
    if ws.len() < 2 {
        return None;
    }
    proof {
        assert(seqs::views(ws@)[1] == ws@[1]@);
    }
    let tok = strip_leading(ws[1].as_slice(), text::chars_of("SIZE:").as_slice());
    let (done, rest) = match text::split_once(tok.as_slice(), text::one('/').as_slice()) {
        Some(parts) => parts,
        None => return None,
    };
    let (total, percent) = match text::split_once(rest.as_slice(), text::one('(').as_slice()) {
        Some((t, p)) => (t, Some(text::string_of(text::strip_end(p.as_slice(), text::two(')', '%').as_slice()).as_slice()))),
        None => {
            let p = percent_from_sizes(done.as_slice(), rest.as_slice());
            (rest, p)
        },
    };
    let up = field(l.as_slice(), text::chars_of("UL:").as_slice());
    let (upload, uploaded) = match up {
        Some(v) => {
            let a = text::before_any(v.as_slice(), text::one('(').as_slice());
            let b = match text::split_once(v.as_slice(), text::one('(').as_slice()) {
                Some((_, b)) => text::strip_end(b.as_slice(), text::one(')').as_slice()),
                None => Vec::new(),
            };
            (a, b)
        },
        None => (Vec::new(), Vec::new()),
    };
    let speed = match field(l.as_slice(), text::chars_of("DL:").as_slice()) {
        Some(v) => v,
        None => Vec::new(),
    };
    let eta = match field(l.as_slice(), text::chars_of("ETA:").as_slice()) {
        Some(v) => v,
        None => Vec::new(),
    };
    let peers = match number(l.as_slice(), text::chars_of("CN:").as_slice()) {
        Some(n) => n,
        None => 0,
    };
    let seeders = number(l.as_slice(), text::chars_of("SD:").as_slice());
    let p = ProgressLine {
        percent,
        done: text::string_of(done.as_slice()),
        total: text::string_of(total.as_slice()),
        speed: text::string_of(speed.as_slice()),
        eta: text::string_of(eta.as_slice()),
        upload: text::string_of(upload.as_slice()),
        uploaded: text::string_of(uploaded.as_slice()),
        peers,
        seeders,
    };
    Some(p)
}


/// How many times `c` occurs in `s`.
pub open spec fn count_char(s: Seq<char>, c: char) -> nat
    decreases s.len(),
{
    if s.len() == 0 {
        0
    } else {
        count_char(s.drop_last(), c) + if s.last() == c { 1nat } else { 0nat }
    }
}

/// What follows the last `|`.
pub open spec fn last_cell(s: Seq<char>) -> Seq<char> {
    match seqs::rfind_any(s, seq!['|']) {
        Some(i) => s.skip(i + 1 as int),
        None => s,
    }
}

/// The output file a backend just named, from either tool's chatter: yt-dlp's
/// destination, merge and already-downloaded lines, and a finished row of
/// aria2c's result table that names a file rather than a torrent's metadata.
pub open spec fn destination_of(line: Seq<char>) -> Option<Seq<char>> {
    let l = seqs::trim(line);
    let dest = "[download] Destination:"@;
    let merge = "[Merger] Merging formats into"@;
    let dl = "[download] "@;
    let had = " has already been downloaded"@;
    if seqs::starts_with(l, dest) {
        Some(seqs::trim(l.skip(dest.len() as int)))
    } else if seqs::starts_with(l, merge) {
        Some(seqs::strip(seqs::trim(l.skip(merge.len() as int)), seq!['"']))
    } else if seqs::starts_with(l, dl) {
        let rest = l.skip(dl.len() as int);
        if seqs::ends_with(rest, had) {
            Some(rest.take(rest.len() - had.len()))
        } else {
            None
        }
    } else if seqs::contains(l, "|OK"@) && count_char(l, '|') >= 3 {
        let cell = seqs::trim(last_cell(l));
        if seqs::starts_with(cell, "[MEMORY]"@) {
            None
        } else {
            Some(cell)
        }
    } else {
        None
    }
}

/// The output file a backend just named, from either tool's chatter.
pub fn destination(line: &str) -> (r: Option<String>)
    ensures
        match destination_of(line@) {
            Some(v) => r matches Some(p) && p@ == v,
            None => r is None,
        },
{
    let l = text::trim(text::chars_of(line).as_slice());
    let dest = text::chars_of("[download] Destination:");
    let merge = text::chars_of("[Merger] Merging formats into");
    let dl = text::chars_of("[download] ");
    let had = text::chars_of(" has already been downloaded");
    if text::starts_with(l.as_slice(), dest.as_slice()) {
        let rest = text::slice_of(l.as_slice(), dest.len(), l.len());
        proof {
            assert(rest@ =~= l@.skip(dest@.len() as int));
        }
        return Some(text::string_of(text::trim(rest.as_slice()).as_slice()));
    }
    if text::starts_with(l.as_slice(), merge.as_slice()) {
        let rest = text::slice_of(l.as_slice(), merge.len(), l.len());
        proof {
            assert(rest@ =~= l@.skip(merge@.len() as int));
        }
        let t = text::trim(rest.as_slice());
        return Some(text::string_of(text::strip(t.as_slice(), text::one('"').as_slice()).as_slice()));
    }
    if text::starts_with(l.as_slice(), dl.as_slice()) {
        let rest = text::slice_of(l.as_slice(), dl.len(), l.len());
        proof {
            assert(rest@ =~= l@.skip(dl@.len() as int));
        }
        if text::ends_with(rest.as_slice(), had.as_slice()) {
            let name = text::slice_of(rest.as_slice(), 0, rest.len() - had.len());
            proof {
                assert(name@ =~= rest@.take(rest@.len() - had@.len()));
            }
            return Some(text::string_of(name.as_slice()));
        }
        return None;
    }
    if text::contains(l.as_slice(), text::chars_of("|OK").as_slice()) {
        let mut bars: usize = 0;
        let mut i: usize = 0;
        proof {
            assert(l@.take(0) =~= Seq::<char>::empty());
        }
        while i < l.len()
            invariant
                i <= l@.len(),
                bars == count_char(l@.take(i as int), '|'),
                bars <= i,
            decreases l@.len() - i,
        {
            proof {
                assert(l@.take(i + 1 as int).drop_last() =~= l@.take(i as int));
            }
            if l[i] == '|' {
                bars += 1;
            }
            i += 1;
        }
        proof {
            assert(l@.take(l@.len() as int) =~= l@);
        }
        if bars >= 3 {
            let bar = text::one('|');
            proof {
                seqs::lemma_rfind_any(l@, seq!['|'], l@.len() as int);
            }
            let cell = match text::rfind_any(l.as_slice(), bar.as_slice()) {
                Some(k) => {
                    let c = text::slice_of(l.as_slice(), k + 1, l.len());
                    proof {
                        assert(c@ =~= l@.skip(k + 1 as int));
                    }
                    c
                },
                None => text::slice_of(l.as_slice(), 0, l.len()),
            };
            proof {
                assert(cell@ =~= last_cell(l@));
            }
            let cell = text::trim(cell.as_slice());
            if text::starts_with(cell.as_slice(), text::chars_of("[MEMORY]").as_slice()) {
                return None;
            }
            return Some(text::string_of(cell.as_slice()));
        }
    }
    None
}

// ---------------------------------------------------------------------------
// Output lines
// ---------------------------------------------------------------------------

/// A line ending: both tools redraw progress with `\r`, so a newline is not
/// the only one.
pub open spec fn line_break(c: char) -> bool {
    c == '\r' || c == '\n'
}

/// The lines that are complete in `s`, each trimmed, blank ones dropped,
/// and what is left after the last line ending.
pub open spec fn complete_lines(s: Seq<char>) -> (Seq<Seq<char>>, Seq<char>)
    decreases s.len(),
{
    match seqs::find_any(s, seq!['\r', '\n']) {
        Some(i) => {
            proof {
                seqs::lemma_find_any(s, seq!['\r', '\n'], 0);
            }
            let line = seqs::trim(s.take(i as int));
            let (rest, left) = complete_lines(s.skip(i + 1 as int));
            if line.len() > 0 {
                (seq![line] + rest, left)
            } else {
                (rest, left)
            }
        },
        None => (seq![], s),
    }
}

/// Every line of a finished stream: the complete ones, then whatever was
/// left at the end, trimmed, unless blank.
pub open spec fn stream_lines(s: Seq<char>) -> Seq<Seq<char>> {
    let (done, left) = complete_lines(s);
    if seqs::trim(left).len() > 0 {
        done.push(seqs::trim(left))
    } else {
        done
    }
}

/// Takes the complete lines out of a buffer of output read so far, leaving
/// the unfinished tail for the next read.
pub fn take_lines(cur: &mut String) -> (r: Vec<String>)
    ensures
        (crate::utils::strings(r@), final(cur)@) == complete_lines(old(cur)@),
{
    let s = text::chars_of(cur.as_str());
    let breaks = text::two('\r', '\n');
    let mut r: Vec<String> = Vec::new();
    let mut a: usize = 0;
    let ghost whole = s@;
    proof {
        assert(whole.skip(0) =~= whole);
    }
    loop
        invariant
            a <= s@.len(),
            whole == s@,
            whole == old(cur)@,
            breaks@ == seq!['\r', '\n'],
            complete_lines(whole) == (crate::utils::strings(r@) + complete_lines(whole.skip(a as int)).0,
                complete_lines(whole.skip(a as int)).1),
        decreases s@.len() - a,
    {
        let rest = text::slice_of(s.as_slice(), a, s.len());
        proof {
            assert(rest@ =~= whole.skip(a as int));
            seqs::lemma_find_any(rest@, seq!['\r', '\n'], 0);
        }
        match text::find_any(rest.as_slice(), breaks.as_slice()) {
            Some(i) => {
                let line = text::trim(text::slice_of(rest.as_slice(), 0, i).as_slice());
                proof {
                    assert(rest@.skip(i + 1 as int) =~= whole.skip(a + i + 1));
                    assert(rest@.subrange(0, i as int) =~= rest@.take(i as int));
                }
                if line.len() > 0 {
                    let ghost before = crate::utils::strings(r@);
                    r.push(text::string_of(line.as_slice()));
                    proof {
                        assert(crate::utils::strings(r@) =~= before.push(line@));
                        assert(before + (seq![line@] + complete_lines(whole.skip(a + i + 1)).0) =~= before.push(
                            line@,
                        ) + complete_lines(whole.skip(a + i + 1)).0);
                    }
                }
                a = a + i + 1;
            },
            None => {
                *cur = text::string_of(rest.as_slice());
                proof {
                    assert(complete_lines(rest@) == (Seq::<Seq<char>>::empty(), rest@));
                    assert(crate::utils::strings(r@) + Seq::<Seq<char>>::empty() =~= crate::utils::strings(r@));
                }
                return r;
            },
        }
    }
}

/// Every line of a finished stream of output: split at `\r` and `\n`,
/// trimmed, blank lines dropped.
pub fn for_each_line(output: &str) -> (r: Vec<String>)
    ensures
        crate::utils::strings(r@) == stream_lines(output@),
{
    let mut cur = text::string_of(text::chars_of(output).as_slice());
    let mut r = take_lines(&mut cur);
    let last = text::trim(text::chars_of(cur.as_str()).as_slice());
    if last.len() > 0 {
        let ghost before = crate::utils::strings(r@);
        r.push(text::string_of(last.as_slice()));
        proof {
            assert(crate::utils::strings(r@) =~= before.push(last@));
        }
    }
    r
}

} // verus!
