//! Extra flags handed to a backend verbatim, one file per backend: the text
//! of that file, the flags in it, and the file written back.
use vstd::prelude::*;

use crate::seqs;
use crate::text;
use crate::utils::strings;

verus! {

/// The tokens of a flags file, line by line: blank lines and lines starting
/// with `#` give none, every other line its whitespace-separated words.
pub open spec fn tokens_of(lines: Seq<Seq<char>>) -> Seq<Seq<char>>
    decreases lines.len(),
{
    if lines.len() == 0 {
        seq![]
    } else {
        let before = tokens_of(lines.drop_last());
        let line = seqs::trim(lines.last());
        if line.len() == 0 || line[0] == '#' {
            before
        } else {
            before + seqs::words(line)
        }
    }
}

/// One token as a (flag, value) pair: split at the first `=`, a bare flag
/// with an empty value.
pub open spec fn pair_of(t: Seq<char>) -> (Seq<char>, Seq<char>) {
    match seqs::split_once(t, seq!['=']) {
        Some((flag, value)) => (flag, value),
        None => (t, seq![]),
    }
}

/// One pair as a line of the file: `flag=value`, or the bare flag.
pub open spec fn line_of(pair: (Seq<char>, Seq<char>)) -> Seq<char> {
    if pair.1.len() == 0 {
        pair.0
    } else {
        pair.0 + seq!['='] + pair.1
    }
}

/// Lines joined with `\n` between them.
pub open spec fn joined(lines: Seq<Seq<char>>) -> Seq<char>
    decreases lines.len(),
{
    if lines.len() == 0 {
        seq![]
    } else if lines.len() == 1 {
        lines[0]
    } else {
        joined(lines.drop_last()) + seq!['\n'] + lines.last()
    }
}

/// The views of a list of string pairs.
pub open spec fn pair_views(v: Seq<(String, String)>) -> Seq<(Seq<char>, Seq<char>)> {
    v.map_values(|p: (String, String)| (p.0@, p.1@))
}

/// Whitespace-separated tokens; `#` starts a comment line.
pub fn parse(text: &str) -> (r: Vec<String>)
    ensures
        strings(r@) == tokens_of(seqs::lines(text@)),
{
    let chars = text::chars_of(text);
    let ls = text::lines(chars.as_slice());
    let mut r: Vec<String> = Vec::new();
    let mut i: usize = 0;
    proof {
        assert(seqs::views(ls@).take(0) =~= Seq::<Seq<char>>::empty());
        assert(strings(r@) =~= Seq::<Seq<char>>::empty());
    }
    while i < ls.len()
        invariant
            i <= ls@.len(),
            seqs::views(ls@) == seqs::lines(text@),
            strings(r@) == tokens_of(seqs::views(ls@).take(i as int)),
        decreases ls@.len() - i,
    {
        let line = text::trim(ls[i].as_slice());
        proof {
            let lv = seqs::views(ls@);
            assert(lv.take(i + 1).drop_last() =~= lv.take(i as int));
            assert(lv[i as int] == ls@[i as int]@);
        }
        if line.len() > 0 && line[0] != '#' {
            let ws = text::words(line.as_slice());
            let mut j: usize = 0;
            let ghost start = strings(r@);
            while j < ws.len()
                invariant
                    j <= ws@.len(),
                    strings(r@) == start + seqs::views(ws@).take(j as int),
                decreases ws@.len() - j,
            {
                let s = text::string_of(ws[j].as_slice());
                proof {
                    assert(strings(r@.push(s)) =~= strings(r@).push(s@));
                    assert(seqs::views(ws@).take(j + 1) =~= seqs::views(ws@).take(j as int).push(
                        ws@[j as int]@,
                    ));
                }
                r.push(s);
                j += 1;
            }
            proof {
                assert(seqs::views(ws@).take(ws@.len() as int) =~= seqs::views(ws@));
            }
        }
        i += 1;
    }
    proof {
        assert(seqs::views(ls@).take(ls@.len() as int) =~= seqs::views(ls@));
    }
    r
}

/// Tokens as (flag, value) pairs; a bare flag gets an empty value. Order is
/// preserved so options the TUI does not know about survive a round-trip.
pub fn to_pairs(tokens: &[String]) -> (r: Vec<(String, String)>)
    ensures
        pair_views(r@) == strings(tokens@).map_values(|t: Seq<char>| pair_of(t)),
{
    let mut r: Vec<(String, String)> = Vec::new();
    let eq = ['='];
    proof {
        assert(eq@ =~= seq!['=']);
    }
    let mut i: usize = 0;
    while i < tokens.len()
        invariant
            i <= tokens@.len(),
            eq@ == seq!['='],
            pair_views(r@) =~= strings(tokens@).take(i as int).map_values(|t: Seq<char>| pair_of(t)),
        decreases tokens@.len() - i,
    {
        let t = text::chars_of(tokens[i].as_str());
        let pair = match text::split_once(t.as_slice(), &eq) {
            Some((flag, value)) => (text::string_of(flag.as_slice()), text::string_of(value.as_slice())),
            None => (text::string_of(t.as_slice()), String::new()),
        };
        proof {
            assert(strings(tokens@)[i as int] == tokens@[i as int]@);
            assert(pair_views(r@.push(pair)) =~= pair_views(r@).push((pair.0@, pair.1@)));
            assert(strings(tokens@).take(i + 1) =~= strings(tokens@).take(i as int).push(
                tokens@[i as int]@,
            ));
        }
        r.push(pair);
        i += 1;
    }
    proof {
        assert(strings(tokens@).take(tokens@.len() as int) =~= strings(tokens@));
    }
    r
}

/// The pairs as the file holds them, one per line.
pub fn render(pairs: &[(String, String)]) -> (r: String)
    ensures
        r@ == joined(pair_views(pairs@).map_values(|p: (Seq<char>, Seq<char>)| line_of(p))),
{
    let ghost items = pair_views(pairs@).map_values(|p: (Seq<char>, Seq<char>)| line_of(p));
    let mut out: Vec<char> = Vec::new();
    let mut i: usize = 0;
    proof {
        assert(items.take(0) =~= Seq::<Seq<char>>::empty());
    }
    while i < pairs.len()
        invariant
            i <= pairs@.len(),
            items == pair_views(pairs@).map_values(|p: (Seq<char>, Seq<char>)| line_of(p)),
            out@ == joined(items.take(i as int)),
        decreases pairs@.len() - i,
    {
        let ghost before = out@;
        if i > 0 {
            out.push('\n');
        }
        let flag = text::chars_of(pairs[i].0.as_str());
        let value = text::chars_of(pairs[i].1.as_str());
        text::push_all(&mut out, flag.as_slice());
        if value.len() > 0 {
            out.push('=');
            text::push_all(&mut out, value.as_slice());
        }
        proof {
            let p = (pairs@[i as int].0@, pairs@[i as int].1@);
            assert(items[i as int] == line_of(p));
            assert(items.take(i + 1).drop_last() =~= items.take(i as int));
            if i > 0 {
                assert(out@ =~= before + seq!['\n'] + line_of(p));
            } else {
                assert(items.take(1) =~= seq![line_of(p)]);
                assert(out@ =~= line_of(p));
            }
        }
        i += 1;
    }
    proof {
        assert(items.take(pairs@.len() as int) =~= items);
    }
    text::string_of(out.as_slice())
}


/// A token that a round trip through the file keeps as it is: something
/// there, no whitespace in it, not a comment, and no `=` left with nothing
/// after it.
pub open spec fn plain_token(t: Seq<char>) -> bool {
    &&& t.len() > 0
    &&& forall|i: int| 0 <= i < t.len() ==> !seqs::is_ws(#[trigger] t[i])
    &&& t[0] != '#'
    &&& (seqs::split_once(t, seq!['=']) matches Some((_, v)) ==> v.len() > 0)
}

proof fn lemma_no_ws_trim(t: Seq<char>)
    requires
        forall|i: int| 0 <= i < t.len() ==> !seqs::is_ws(#[trigger] t[i]),
    ensures
        seqs::trim(t) == t,
        t.len() > 0 ==> seqs::words(t) == seq![t],
{
    assert(seqs::trim_start(t) == t);
    assert(seqs::trim_end(t) == t);
    if t.len() > 0 {
        seqs::lemma_word_len(t, t.len());
        assert(t.take(t.len() as int) =~= t);
        assert(t.skip(t.len() as int) =~= Seq::<char>::empty());
        assert(seqs::words(Seq::<char>::empty()) =~= Seq::<Seq<char>>::empty());
        assert(seqs::words(t) =~= seq![t] + Seq::<Seq<char>>::empty());
    }
}

proof fn lemma_line_of_pair(t: Seq<char>)
    requires
        plain_token(t),
    ensures
        line_of(pair_of(t)) == t,
{
    seqs::lemma_find(t, seq!['='], 0);
    match seqs::find(t, seq!['=']) {
        Some(i) => {
            assert(t.subrange(i as int, i + 1 as int) == seq!['=']);
            assert(t.take(i as int) + seq!['='] + t.skip(i + 1 as int) =~= t);
        },
        None => {},
    }
}

proof fn lemma_joined_front(lines: Seq<Seq<char>>)
    requires
        lines.len() >= 2,
    ensures
        joined(lines) == lines[0] + seq!['\n'] + joined(lines.drop_first()),
    decreases lines.len(),
{
    if lines.len() == 2 {
        assert(lines.drop_last() =~= seq![lines[0]]);
        assert(lines.drop_first() =~= seq![lines[1]]);
        assert(joined(lines.drop_last()) == lines[0]);
        assert(joined(lines.drop_first()) == lines[1]);
        assert(joined(lines) == joined(lines.drop_last()) + seq!['\n'] + lines.last());
    } else {
        let init = lines.drop_last();
        let tail = lines.drop_first();
        lemma_joined_front(init);
        assert(init.drop_first() =~= tail.drop_last());
        assert(tail.last() == lines.last());
        assert(init[0] == lines[0]);
        assert(joined(lines) == joined(init) + seq!['\n'] + lines.last());
        assert(joined(tail) == joined(tail.drop_last()) + seq!['\n'] + tail.last());
        assert(joined(lines) =~= lines[0] + seq!['\n'] + joined(tail));
    }
}

proof fn lemma_lines_joined(items: Seq<Seq<char>>)
    requires
        forall|k: int| 0 <= k < items.len() ==> (#[trigger] items[k]).len() > 0,
        forall|k: int, j: int|
            0 <= k < items.len() && 0 <= j < items[k].len() ==> !seqs::is_ws(#[trigger] items[k][j]),
    ensures
        seqs::lines(joined(items)) == items,
    decreases items.len(),
{
    if items.len() == 0 {
    } else if items.len() == 1 {
        let t = items[0];
        seqs::lemma_find_any(t, seq!['\n'], 0);
        assert forall|k: int| 0 <= k < t.len() implies !seq!['\n'].contains(#[trigger] t[k]) by {
            assert(!seqs::is_ws(items[0][k]));
            if seq!['\n'].contains(t[k]) {
                assert(seq!['\n'][0] == '\n');
            }
        }
        assert(seqs::find_any(t, seq!['\n']) is None);
        assert(seqs::lines(t) =~= seq![t]);
    } else {
        lemma_joined_front(items);
        let rest = items.drop_first();
        lemma_lines_joined(rest);
        let t = items[0];
        let whole = t + seq!['\n'] + joined(rest);
        seqs::lemma_find_any(whole, seq!['\n'], 0);
        assert(seq!['\n'][0] == '\n');
        assert forall|k: int| 0 <= k < t.len() implies !seq!['\n'].contains(#[trigger] whole[k]) by {
            assert(whole[k] == items[0][k]);
            assert(!seqs::is_ws(items[0][k]));
        }
        assert(whole[t.len() as int] == '\n');
        assert(seqs::find_any(whole, seq!['\n']) == Some(t.len())) by {
            match seqs::find_any(whole, seq!['\n']) {
                Some(m) => {
                    if m < t.len() {
                        assert(!seq!['\n'].contains(whole[m as int]));
                    } else if m > t.len() {
                        assert(seq!['\n'].contains(whole[t.len() as int]));
                    }
                },
                None => {
                    assert(seq!['\n'].contains(whole[t.len() as int]));
                },
            }
        }
        assert(whole.take(t.len() as int) =~= t);
        assert(whole.skip(t.len() + 1 as int) =~= joined(rest));
        assert(!seqs::is_ws(t[t.len() - 1]));
        assert(seqs::chomp(t) == t);
        assert(seqs::lines(whole) =~= seq![t] + rest);
        assert(seq![t] + rest =~= items);
    }
}

proof fn lemma_tokens_of_plain(items: Seq<Seq<char>>)
    requires
        forall|k: int| 0 <= k < items.len() ==> plain_token(#[trigger] items[k]),
    ensures
        tokens_of(items) == items,
    decreases items.len(),
{
    if items.len() > 0 {
        lemma_tokens_of_plain(items.drop_last());
        let t = items.last();
        assert(plain_token(items[items.len() - 1]));
        lemma_no_ws_trim(t);
        assert(items.drop_last() + seq![t] =~= items);
    }
}

/// Flags written out by `render` come back from `parse` as they were, in
/// the same order: what the panel does not know about survives a save.
pub proof fn law_args_round_trip(tokens: Seq<Seq<char>>)
    requires
        forall|k: int| 0 <= k < tokens.len() ==> plain_token(#[trigger] tokens[k]),
    ensures
        tokens_of(seqs::lines(joined(
            tokens.map_values(|t: Seq<char>| pair_of(t)).map_values(
                |p: (Seq<char>, Seq<char>)| line_of(p),
            ),
        ))) == tokens,
{
    let items = tokens.map_values(|t: Seq<char>| pair_of(t)).map_values(
        |p: (Seq<char>, Seq<char>)| line_of(p),
    );
    assert forall|k: int| 0 <= k < tokens.len() implies items[k] == tokens[k] by {
        lemma_line_of_pair(tokens[k]);
    }
    assert(items =~= tokens);
    assert forall|k: int, j: int| 0 <= k < items.len() && 0 <= j < items[k].len() implies !seqs::is_ws(
        #[trigger] items[k][j],
    ) by {
        assert(plain_token(tokens[k]));
    }
    assert forall|k: int| 0 <= k < items.len() implies (#[trigger] items[k]).len() > 0 by {
        assert(plain_token(tokens[k]));
    }
    lemma_lines_joined(items);
    lemma_tokens_of_plain(tokens);
}

/// `<config>/muxget/aria2c.args`: the flags file of one backend under the
/// configuration directory.
pub fn path(config_dir: &str, backend: &str) -> (r: String)
    ensures
        r@ == config_dir@ + seq!['/'] + backend@ + ".args"@,
{
    let mut v = text::chars_of(config_dir);
    v.push('/');
    text::push_all(&mut v, text::chars_of(backend).as_slice());
    text::push_all(&mut v, text::chars_of(".args").as_slice());
    text::string_of(v.as_slice())
}

/// What the file holds once saved: the text as typed, without the blanks
/// around it.
pub fn saved(text: &str) -> (r: String)
    ensures
        r@ == seqs::trim(text@),
{
    let c = text::chars_of(text);
    text::string_of(text::trim(c.as_slice()).as_slice())
}

} // verus!
