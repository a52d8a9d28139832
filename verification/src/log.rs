//! The session log: what happened, when, and how bad it was, kept to the
//! most recent lines.
use vstd::prelude::*;

use crate::seqs;
use crate::text;
use crate::utils::unix_secs;

verus! {

/// How much history is kept. A long crawl is chatty, and nobody debugs from
/// the ten-thousandth line back.
pub const CAP: usize = 500;

#[derive(Debug, Clone, Copy, PartialEq, Eq)]
pub enum Level {
    Info,
    Warn,
    Error,
}

#[derive(Debug, Clone, PartialEq)]
pub struct Entry {
    /// Local `HH:MM:SS`.
    pub at: String,
    pub level: Level,
    pub text: String,
}

/// The log: the offset of local time from UTC, and the lines kept, oldest
/// first.
pub struct Log {
    /// Seconds east of UTC.
    pub offset: i64,
    /// Oldest first.
    pub entries: Vec<Entry>,
}

/// The time of day of a moment, `HH:MM:SS`.
pub open spec fn clock_text(secs: int) -> Seq<char> {
    let day = secs % 86_400;
    seqs::padded(day / 3600, 2) + seq![':'] + seqs::padded((day % 3600) / 60, 2) + seq![':'] + seqs::padded(
        day % 60,
        2,
    )
}

/// What a stamp can read: a time of day, or dashes when the clock is unset.
pub open spec fn is_stamp(s: Seq<char>) -> bool {
    s == "--:--:--"@ || exists|secs: int| s == clock_text(secs)
}

/// One line as (time, level, text).
pub open spec fn entry_view(e: Entry) -> (Seq<char>, Level, Seq<char>) {
    (e.at@, e.level, e.text@)
}

impl Log {
    /// The lines kept, oldest first.
    pub open spec fn lines(&self) -> Seq<(Seq<char>, Level, Seq<char>)> {
        self.entries@.map_values(|e: Entry| entry_view(e))
    }

    /// Never more than `CAP` lines.
    pub open spec fn wf(&self) -> bool {
        self.entries@.len() <= CAP
    }

    /// An empty log for a machine `offset` seconds east of UTC.
    pub fn new(offset: i64) -> (r: Log)
        ensures
            r.wf(),
            r.lines().len() == 0,
            r.offset == offset,
    {
        let r = Log { offset, entries: Vec::new() };
        proof {
            assert(r.lines() =~= Seq::<(Seq<char>, Level, Seq<char>)>::empty());
        }
        r
    }

    /// Record one line, stamped with the local time. Once the log is full
    /// the oldest line makes room.
    pub fn write(&mut self, level: Level, text: &str)
        requires
            old(self).wf(),
        ensures
            final(self).wf(),
            final(self).offset == old(self).offset,
            final(self).lines().drop_last() == if old(self).lines().len() == CAP {
                old(self).lines().drop_first()
            } else {
                old(self).lines()
            },
            final(self).lines().len() > 0,
            final(self).lines().last().1 == level,
            final(self).lines().last().2 == text@,
            is_stamp(final(self).lines().last().0),
    {
        let entry = Entry { at: stamp(self.offset), level, text: text::string_of(text::chars_of(text).as_slice()) };
        let ghost before = self.lines();
        if self.entries.len() == CAP {
            self.entries.remove(0);
            proof {
                assert(self.lines() =~= before.drop_first());
            }
        }
        let ghost kept = self.lines();
        self.entries.push(entry);
        proof {
            assert(self.lines() =~= kept.push(entry_view(entry)));
            assert(self.lines().drop_last() =~= kept);
        }
    }

    pub fn info(&mut self, text: &str)
        requires
            old(self).wf(),
        ensures
            final(self).wf(),
            final(self).offset == old(self).offset,
            final(self).lines().drop_last() == if old(self).lines().len() == CAP {
                old(self).lines().drop_first()
            } else {
                old(self).lines()
            },
            final(self).lines().len() > 0,
            final(self).lines().last().1 == Level::Info,
            final(self).lines().last().2 == text@,
    {
        self.write(Level::Info, text);
    }

    pub fn warn(&mut self, text: &str)
        requires
            old(self).wf(),
        ensures
            final(self).wf(),
            final(self).offset == old(self).offset,
            final(self).lines().drop_last() == if old(self).lines().len() == CAP {
                old(self).lines().drop_first()
            } else {
                old(self).lines()
            },
            final(self).lines().len() > 0,
            final(self).lines().last().1 == Level::Warn,
            final(self).lines().last().2 == text@,
    {
        self.write(Level::Warn, text);
    }

    pub fn error(&mut self, text: &str)
        requires
            old(self).wf(),
        ensures
            final(self).wf(),
            final(self).offset == old(self).offset,
            final(self).lines().drop_last() == if old(self).lines().len() == CAP {
                old(self).lines().drop_first()
            } else {
                old(self).lines()
            },
            final(self).lines().len() > 0,
            final(self).lines().last().1 == Level::Error,
            final(self).lines().last().2 == text@,
    {
        self.write(Level::Error, text);
    }

    /// Everything kept, oldest first.
    pub fn entries(&self) -> (r: Vec<Entry>)
        ensures
            r@.map_values(|e: Entry| entry_view(e)) == self.lines(),
    {
        let mut r: Vec<Entry> = Vec::new();
        let mut i: usize = 0;
        while i < self.entries.len()
            invariant
                i <= self.entries@.len(),
                r@.map_values(|e: Entry| entry_view(e)) == self.entries@.take(i as int).map_values(
                    |e: Entry| entry_view(e),
                ),
            decreases self.entries@.len() - i,
        {
            let e = &self.entries[i];
            let copy = Entry { at: e.at.clone(), level: e.level, text: e.text.clone() };
            let ghost before = r@;
            r.push(copy);
            proof {
                assert(r@.map_values(|e: Entry| entry_view(e)) =~= before.map_values(|e: Entry| entry_view(e)).push(
                    entry_view(self.entries@[i as int]),
                ));
                assert(self.entries@.take(i + 1).map_values(|e: Entry| entry_view(e)) =~= self.entries@.take(
                    i as int,
                ).map_values(|e: Entry| entry_view(e)).push(entry_view(self.entries@[i as int])));
            }
            i += 1;
        }
        proof {
            assert(self.entries@.take(self.entries@.len() as int) =~= self.entries@);
        }
        r
    }

    /// Forget every line.
    pub fn clear(&mut self)
        ensures
            final(self).wf(),
            final(self).offset == old(self).offset,
            final(self).lines().len() == 0,
    {
        self.entries = Vec::new();
        proof {
            assert(self.lines() =~= Seq::<(Seq<char>, Level, Seq<char>)>::empty());
        }
    }
}

/// The time of day of a moment given as seconds since the epoch, already
/// shifted to local time.
pub fn clock_at(secs: i128) -> (r: String)
    requires
        secs > i128::MIN,
    ensures
        r@ == clock_text(secs as int),
{
    let day: i128 = if secs >= 0 {
        let d = ((secs as u128) % 86_400) as i128;
        proof {
            vstd::arithmetic::div_mod::lemma_fundamental_div_mod(secs as int, 86_400);
        }
        d
    } else {
        let back: u128 = ((-secs) as u128) % 86_400;
        let q: u128 = ((-secs) as u128) / 86_400;
        proof {
            vstd::arithmetic::div_mod::lemma_fundamental_div_mod((-secs) as int, 86_400);
            if back == 0 {
                vstd::arithmetic::div_mod::lemma_fundamental_div_mod_converse(
                    secs as int,
                    86_400,
                    -(q as int),
                    0,
                );
            } else {
                vstd::arithmetic::div_mod::lemma_fundamental_div_mod_converse(
                    secs as int,
                    86_400,
                    -(q as int) - 1,
                    86_400 - back as int,
                );
            }
        }
        if back == 0 {
            0
        } else {
            86_400 - back as i128
        }
    };
    proof {
        assert(day == secs as int % 86_400);
    }
    let h = (day / 3600) as i64;
    let m = ((day % 3600) / 60) as i64;
    let s = (day % 60) as i64;
    let mut v = text::padded(h, 2);
    v.push(':');
    text::push_all(&mut v, text::padded(m, 2).as_slice());
    v.push(':');
    text::push_all(&mut v, text::padded(s, 2).as_slice());
    proof {
        assert(v@ =~= clock_text(secs as int));
    }
    text::string_of(v.as_slice())
}

/// Local `HH:MM:SS` from the system clock, `offset` seconds east of UTC.
pub fn stamp(offset: i64) -> (r: String)
    ensures
        is_stamp(r@),
{
    match unix_secs() {
        Some(secs) => {
            let r = clock_at(secs as i128 + offset as i128);
            proof {
                assert(r@ == clock_text(secs as int + offset as int));
            }
            r
        },
        None => {
            let r = text::string_of(text::chars_of("--:--:--").as_slice());
            r
        },
    }
}

/// Seconds east of UTC, as `date +%z` prints them (`+0330`, `-0800`); `0`
/// for anything else.
pub open spec fn offset_of(text: Seq<char>) -> int {
    let t = seqs::trim(text);
    let (sign, digits) = if t.len() > 0 && t[0] == '-' {
        (-1int, t.drop_first())
    } else {
        (1int, seqs::strip_start(t, seq!['+']))
    };
    if digits.len() < 4 {
        0
    } else {
        match (seqs::parse_i64(digits.take(2)), seqs::parse_i64(digits.subrange(2, 4))) {
            (Some(h), Some(m)) => sign * (h * 3600 + m * 60),
            _ => 0,
        }
    }
}

/// Seconds east of UTC from what `date +%z` printed; `0` for anything else.
pub fn parse_offset(text: &str) -> (r: i64)
    ensures
        r == offset_of(text@),
{
    let t = text::trim(text::chars_of(text).as_slice());
    let n = t.len();
    let (sign, digits): (i64, Vec<char>) = if n > 0 && t[0] == '-' {
        let d = text::slice_of(t.as_slice(), 1, n);
        proof {
            assert(d@ =~= t@.drop_first());
        }
        (-1, d)
    } else {
        (1, text::strip_start(t.as_slice(), text::one('+').as_slice()))
    };
    if digits.len() < 4 {
        return 0;
    }
    let h = text::parse_i64(text::slice_of(digits.as_slice(), 0, 2).as_slice());
    let m = text::parse_i64(text::slice_of(digits.as_slice(), 2, 4).as_slice());
    proof {
        assert(digits@.subrange(0, 2) =~= digits@.take(2));
    }
    match (h, m) {
        (Some(h), Some(m)) => {
            proof {
                lemma_two_chars(digits@.take(2));
                lemma_two_chars(digits@.subrange(2, 4));
            }
            sign * (h * 3600 + m * 60)
        },
        _ => 0,
    }
}

/// Two characters read as a number are at most 99 either way.
proof fn lemma_two_chars(s: Seq<char>)
    requires
        s.len() == 2,
    ensures
        seqs::parse_i64(s) matches Some(v) ==> -9 <= v <= 99,
{
    if s[0] == '-' {
        let b = s.drop_first();
        assert(b.drop_last() =~= Seq::<char>::empty());
        if seqs::all_digits(b) {
            assert(seqs::is_digit(b[0]));
            assert(b.last() == b[0]);
            assert((b.last() as u32 - '0' as u32) <= 9);
            assert(seqs::digits_value(b.drop_last()) == 0);
            assert(seqs::digits_value(b) <= 9);
        }
    } else {
        let body = if s[0] == '+' { s.drop_first() } else { s };
        if body.len() > 0 && seqs::all_digits(body) {
            if body.len() == 2 {
                let front = body.drop_last();
                assert(front.drop_last() =~= Seq::<char>::empty());
                assert(seqs::is_digit(body[0]) && seqs::is_digit(body[1]));
                assert(front[0] == body[0]);
                assert(front.last() == body[0]);
                assert(body.last() == body[1]);
                assert((front.last() as u32 - '0' as u32) <= 9);
                assert((body.last() as u32 - '0' as u32) <= 9);
                assert(seqs::digits_value(front.drop_last()) == 0);
                assert(seqs::digits_value(front) <= 9);
                assert(seqs::digits_value(body) <= 99);
            } else {
                assert(body.drop_last() =~= Seq::<char>::empty());
                assert(seqs::is_digit(body[0]));
                assert(body.last() == body[0]);
                assert((body.last() as u32 - '0' as u32) <= 9);
                assert(seqs::digits_value(body.drop_last()) == 0);
                assert(seqs::digits_value(body) <= 9);
            }
        }
    }
}

} // verus!
