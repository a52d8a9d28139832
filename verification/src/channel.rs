//! Channels to keep up with, and the file they are kept in: the same subset
//! of TOML the rules file uses, `[[channel]]` headers and `key = "value"`
//! lines, `#` comments.
use vstd::prelude::*;

use crate::seqs;
use crate::text;
use crate::ytdlp::{date, date_of};

verus! {

/// A channel to keep up with: where it is, and the day it was last synced.
/// Syncing lists everything uploaded since that day and moves it to today.
#[derive(Debug, Clone, Default, PartialEq)]
pub struct Channel {
    pub url: String,
    /// `YYYYMMDD`, or empty, which means "everything": the first sync.
    pub last_sync: String,
}

/// A channel as its url and its last sync.
pub open spec fn channel_views(v: Seq<Channel>) -> Seq<(Seq<char>, Seq<char>)> {
    v.map_values(|c: Channel| (c.url@, c.last_sync@))
}

/// What a line says once its comment and surrounding whitespace are gone.
pub open spec fn content(line: Seq<char>) -> Seq<char> {
    seqs::trim(seqs::before_any(line, seq!['#']))
}

/// A value without its whitespace and quotes.
pub open spec fn unquoted(v: Seq<char>) -> Seq<char> {
    seqs::strip(seqs::trim(v), seq!['"', '\''])
}

/// The header that starts a channel.
pub open spec fn channel_header() -> Seq<char> {
    seq!['[', '[', 'c', 'h', 'a', 'n', 'n', 'e', 'l', ']', ']']
}

/// The two keys a channel has.
pub open spec fn url_key() -> Seq<char> {
    seq!['u', 'r', 'l']
}

pub open spec fn sync_key() -> Seq<char> {
    seq!['l', 'a', 's', 't', '_', 's', 'y', 'n', 'c']
}

/// One line read into the channels so far: a header opens a new channel,
/// and a `key = value` line sets a field of the last one. Anything else, and
/// anything before the first header, is not ours.
pub open spec fn channel_step(cs: Seq<(Seq<char>, Seq<char>)>, line: Seq<char>) -> Seq<
    (Seq<char>, Seq<char>),
> {
    let l = content(line);
    if l == channel_header() {
        cs.push((seq![], seq![]))
    } else if cs.len() == 0 {
        cs
    } else {
        match seqs::split_once(l, seq!['=']) {
            None => cs,
            Some((k, v)) => {
                let last = cs.last();
                if seqs::trim(k) == url_key() {
                    cs.update(cs.len() - 1, (unquoted(v), last.1))
                } else if seqs::trim(k) == sync_key() {
                    // A hand-written `2024-01-01` is as good as `20240101`.
                    cs.update(cs.len() - 1, (last.0, date_of(unquoted(v))))
                } else {
                    cs
                }
            },
        }
    }
}

/// Lines read one after the other, starting from `cs`.
pub open spec fn channels_from(cs: Seq<(Seq<char>, Seq<char>)>, ls: Seq<Seq<char>>) -> Seq<
    (Seq<char>, Seq<char>),
>
    decreases ls.len(),
{
    if ls.len() == 0 {
        cs
    } else {
        channel_step(channels_from(cs, ls.drop_last()), ls.last())
    }
}

/// The channels that have a url; one without has nothing to sync.
pub open spec fn with_url(cs: Seq<(Seq<char>, Seq<char>)>) -> Seq<(Seq<char>, Seq<char>)>
    decreases cs.len(),
{
    if cs.len() == 0 {
        cs
    } else if cs.last().0.len() > 0 {
        with_url(cs.drop_last()).push(cs.last())
    } else {
        with_url(cs.drop_last())
    }
}

/// The channels a file holds.
pub open spec fn channels_of(text: Seq<char>) -> Seq<(Seq<char>, Seq<char>)> {
    with_url(channels_from(seq![], seqs::lines(text)))
}

/// `key = "value"`, as the file holds one.
pub open spec fn kv_line(k: Seq<char>, v: Seq<char>) -> Seq<char> {
    k + seq![' ', '=', ' ', '"'] + v + seq!['"']
}

/// The file's first line.
pub open spec fn channels_banner() -> Seq<char> {
    "# muxget channel sync"@
}

/// The lines of the file for these channels: a comment, then per channel
/// with a url a blank line, the header, and its two fields.
pub open spec fn channel_lines(cs: Seq<(Seq<char>, Seq<char>)>) -> Seq<Seq<char>>
    decreases cs.len(),
{
    if cs.len() == 0 {
        seq![channels_banner()]
    } else if cs.last().0.len() > 0 {
        channel_lines(cs.drop_last()) + seq![
            seq![],
            channel_header(),
            kv_line(url_key(), cs.last().0),
            kv_line(sync_key(), cs.last().1),
        ]
    } else {
        channel_lines(cs.drop_last())
    }
}

/// The channels in `text`, one per `[[channel]]` header that has a url.
pub fn parse(text: &str) -> (r: Vec<Channel>)
    ensures
        channel_views(r@) == channels_of(text@),
{
    let ls = text::lines(text::chars_of(text).as_slice());
    let ghost lv = seqs::views(ls@);
    let mut all: Vec<Channel> = Vec::new();
    let mut i: usize = 0;
    proof {
        assert(lv.take(0) =~= Seq::<Seq<char>>::empty());
        assert(channel_views(all@) =~= Seq::<(Seq<char>, Seq<char>)>::empty());
    }
    while i < ls.len()
        invariant
            i <= ls@.len(),
            lv == seqs::views(ls@),
            lv == seqs::lines(text@),
            channel_views(all@) == channels_from(seq![], lv.take(i as int)),
        decreases ls@.len() - i,
    {
        let ghost before = channel_views(all@);
        read_line(&mut all, ls[i].as_slice());
        proof {
            assert(lv.take(i + 1).drop_last() =~= lv.take(i as int));
            assert(lv.take(i + 1).last() == ls@[i as int]@);
        }
        i += 1;
    }
    proof {
        assert(lv.take(ls@.len() as int) =~= lv);
    }
    let mut kept: Vec<Channel> = Vec::new();
    let mut j: usize = 0;
    let ghost cs = channel_views(all@);
    proof {
        assert(cs.take(0) =~= Seq::<(Seq<char>, Seq<char>)>::empty());
        assert(channel_views(kept@) =~= Seq::<(Seq<char>, Seq<char>)>::empty());
    }
    while j < all.len()
        invariant
            j <= all@.len(),
            cs == channel_views(all@),
            channel_views(kept@) == with_url(cs.take(j as int)),
        decreases all@.len() - j,
    {
        let c = &all[j];
        proof {
            assert(cs.take(j + 1).drop_last() =~= cs.take(j as int));
            assert(cs.take(j + 1).last() == cs[j as int]);
        }
        if !c.url.as_str().is_empty() {
            let copy = Channel { url: c.url.clone(), last_sync: c.last_sync.clone() };
            kept.push(copy);
            proof {
                assert(channel_views(kept@) =~= with_url(cs.take(j as int)).push(cs[j as int]));
            }
        }
        j += 1;
    }
    proof {
        assert(cs.take(all@.len() as int) =~= cs);
    }
    kept
}

/// Reads one line into the channels so far.
fn read_line(all: &mut Vec<Channel>, line: &[char])
    ensures
        channel_views(final(all)@) == channel_step(channel_views(old(all)@), line@),
{
    let l = text::trim(text::before_any(line, text::one('#').as_slice()).as_slice());
    let header = text::chars_of("[[channel]]");
    proof {
        reveal_strlit("[[channel]]");
        assert(header@ =~= channel_header());
    }
    if text::same(l.as_slice(), header.as_slice()) {
        all.push(Channel { url: String::new(), last_sync: String::new() });
        proof {
            assert(channel_views(all@) =~= channel_views(old(all)@).push((seq![], seq![])));
        }
        return;
    }
    if all.len() == 0 {
        return;
    }
    match text::split_once(l.as_slice(), text::one('=').as_slice()) {
        None => {},
        Some((k, v)) => {
            let k = text::trim(k.as_slice());
            let val = text::strip(text::trim(v.as_slice()).as_slice(), text::two('"', '\'').as_slice());
            let n = all.len() - 1;
            let url = text::chars_of("url");
            let sync = text::chars_of("last_sync");
            proof {
                reveal_strlit("url");
                reveal_strlit("last_sync");
                assert(url@ =~= url_key());
                assert(sync@ =~= sync_key());
            }
            if text::same(k.as_slice(), url.as_slice()) {
                let keep = all[n].last_sync.clone();
                all.set(n, Channel { url: text::string_of(val.as_slice()), last_sync: keep });
                proof {
                    assert(channel_views(all@) =~= channel_views(old(all)@).update(
                        n as int,
                        (val@, channel_views(old(all)@).last().1),
                    ));
                }
            } else if text::same(k.as_slice(), sync.as_slice()) {
                let keep = all[n].url.clone();
                let d = date(text::string_of(val.as_slice()).as_str());
                all.set(n, Channel { url: keep, last_sync: d });
                proof {
                    assert(channel_views(all@) =~= channel_views(old(all)@).update(
                        n as int,
                        (channel_views(old(all)@).last().0, date_of(val@)),
                    ));
                }
            }
        },
    }
}

/// Appends `k = "v"` and a newline.
fn push_kv(out: &mut Vec<char>, key: &str, value: &str)
    ensures
        final(out)@ == old(out)@ + kv_line(key@, value@) + seq!['\n'],
{
    text::push_all(out, text::chars_of(key).as_slice());
    text::push_all(out, text::chars_of(" = \"").as_slice());
    text::push_all(out, text::chars_of(value).as_slice());
    text::push_all(out, text::two('"', '\n').as_slice());
    proof {
        reveal_strlit(" = \"");
        assert(final(out)@ =~= old(out)@ + kv_line(key@, value@) + seq!['\n']);
    }
}

/// The channels as the file holds them, in the form `parse` reads. A channel
/// without a url is left out.
pub fn render(channels: &[Channel]) -> (r: String)
    ensures
        r@ == seqs::ended(channel_lines(channel_views(channels@))),
{
    let ghost cs = channel_views(channels@);
    let mut out = text::chars_of("# muxget channel sync");
    out.push('\n');
    proof {
        assert(seqs::ended(seq![channels_banner()]) =~= channels_banner() + seq!['\n']
            + seqs::ended(seq![channels_banner()].drop_first()));
        assert(seqs::ended(seq![channels_banner()].drop_first()) =~= Seq::<char>::empty());
        assert(cs.take(0) =~= Seq::<(Seq<char>, Seq<char>)>::empty());
        assert(out@ =~= seqs::ended(channel_lines(cs.take(0))));
    }
    let mut i: usize = 0;
    while i < channels.len()
        invariant
            i <= channels@.len(),
            cs == channel_views(channels@),
            out@ == seqs::ended(channel_lines(cs.take(i as int))),
        decreases channels@.len() - i,
    {
        let c = &channels[i];
        let ghost prev = out@;
        proof {
            assert(cs.take(i + 1).drop_last() =~= cs.take(i as int));
            assert(cs.take(i + 1).last() == cs[i as int]);
        }
        if !c.url.as_str().is_empty() {
            out.push('\n');
            text::push_all(&mut out, text::chars_of("[[channel]]").as_slice());
            out.push('\n');
            push_kv(&mut out, "url", c.url.as_str());
            push_kv(&mut out, "last_sync", c.last_sync.as_str());
            proof {
                reveal_strlit("[[channel]]");
                reveal_strlit("url");
                reveal_strlit("last_sync");
                let chunk = seq![
                    Seq::<char>::empty(),
                    channel_header(),
                    kv_line(url_key(), cs[i as int].0),
                    kv_line(sync_key(), cs[i as int].1),
                ];
                seqs::lemma_ended_concat(channel_lines(cs.take(i as int)), chunk);
                let c1 = chunk.drop_first();
                let c2 = c1.drop_first();
                let c3 = c2.drop_first();
                let c4 = c3.drop_first();
                assert(c4 =~= Seq::<Seq<char>>::empty());
                assert(seqs::ended(c4) =~= Seq::<char>::empty());
                assert(seqs::ended(c3) == c3[0] + seq!['\n'] + seqs::ended(c4));
                assert(seqs::ended(c2) == c2[0] + seq!['\n'] + seqs::ended(c3));
                assert(seqs::ended(c1) == c1[0] + seq!['\n'] + seqs::ended(c2));
                assert(seqs::ended(chunk) == chunk[0] + seq!['\n'] + seqs::ended(c1));
                assert(c3[0] == kv_line(sync_key(), cs[i as int].1));
                assert(c2[0] == kv_line(url_key(), cs[i as int].0));
                assert(c1[0] == channel_header());
                assert(chunk[0] =~= Seq::<char>::empty());
                assert(out@ =~= seqs::ended(channel_lines(cs.take(i + 1))));
            }
        }
        i += 1;
    }
    proof {
        assert(cs.take(channels@.len() as int) =~= cs);
    }
    text::string_of(out.as_slice())
}

/// `$XDG_CONFIG_HOME/muxget/channels`: where the file lives under the
/// configuration directory.
pub fn path(config_dir: &str) -> (r: String)
    ensures
        r@ == config_dir@ + "/channels"@,
{
    let mut v = text::chars_of(config_dir);
    text::push_all(&mut v, text::chars_of("/channels").as_slice());
    text::string_of(v.as_slice())
}

// ---------------------------------------------------------------------------
// What the file gives back
// ---------------------------------------------------------------------------

/// A value the file holds as it is: no comment sign or newline in it, and
/// no quote at either end.
pub open spec fn plain_value(v: Seq<char>) -> bool {
    &&& forall|i: int| 0 <= i < v.len() ==> v[i] != '#' && v[i] != '\n'
    &&& v.len() > 0 ==> v[0] != '"' && v[0] != '\'' && v.last() != '"' && v.last() != '\''
}

/// A channel the file gives back as it is: it has a url, both values are
/// plain, and its date is already in the form the reader normalises to.
pub open spec fn clean_channel(c: (Seq<char>, Seq<char>)) -> bool {
    &&& c.0.len() > 0
    &&& plain_value(c.0)
    &&& plain_value(c.1)
    &&& date_of(c.1) == c.1
}

/// A key as the file spells one: letters and underscores, nothing that
/// would end it early.
pub open spec fn plain_key(k: Seq<char>) -> bool {
    &&& k.len() > 0
    &&& forall|i: int|
        0 <= i < k.len() ==> !seqs::is_ws(#[trigger] k[i]) && k[i] != '=' && k[i] != '#' && k[i]
            != '\n'
}

/// Reading the lines of `a` and then those of `b`.
proof fn lemma_channels_concat(
    cs: Seq<(Seq<char>, Seq<char>)>,
    a: Seq<Seq<char>>,
    b: Seq<Seq<char>>,
)
    ensures
        channels_from(cs, a + b) == channels_from(channels_from(cs, a), b),
    decreases b.len(),
{
    if b.len() == 0 {
        assert(a + b =~= a);
    } else {
        lemma_channels_concat(cs, a, b.drop_last());
        assert((a + b).drop_last() =~= a + b.drop_last());
        assert((a + b).last() == b.last());
    }
}

/// How a `key = "value"` line reads back.
pub proof fn lemma_kv_read(k: Seq<char>, v: Seq<char>)
    requires
        plain_key(k),
        plain_value(v),
    ensures
        seqs::one_line(kv_line(k, v)),
        content(kv_line(k, v)) == kv_line(k, v),
        seqs::split_once(kv_line(k, v), seq!['=']) == Some((k + seq![' '], seq![' ', '"'] + v + seq!['"'])),
        seqs::trim(k + seq![' ']) == k,
        unquoted(seq![' ', '"'] + v + seq!['"']) == v,
        kv_line(k, v)[0] == k[0],
{
    let line = kv_line(k, v);
    let rest = seq![' ', '"'] + v + seq!['"'];
    assert(line =~= (k + seq![' ']) + seq!['='] + rest);
    assert forall|i: int| 0 <= i < (k + seq![' ']).len() implies (k + seq![' '])[i] != '=' by {
        if i < k.len() {
            assert((k + seq![' '])[i] == k[i]);
        }
    }
    seqs::lemma_split_first(k + seq![' '], rest, '=');
    assert forall|i: int| 0 <= i < line.len() implies line[i] != '\n' && line[i] != '#' by {
        if i < k.len() {
            assert(line[i] == k[i]);
        } else if i < k.len() + 4 {
        } else if i < k.len() + 4 + v.len() {
            assert(line[i] == v[i - k.len() - 4]);
        }
    }
    assert forall|i: int| 0 <= i < line.len() implies !seq!['#'].contains(#[trigger] line[i]) by {
        if seq!['#'].contains(line[i]) {
            let j = choose|j: int| 0 <= j < 1 && seq!['#'][j] == line[i];
            assert(j == 0);
        }
    }
    seqs::lemma_before_none(line, seq!['#']);
    assert(line[0] == k[0]);
    assert(line.last() == '"');
    seqs::lemma_trim_ends(line);
    let kk = k + seq![' '];
    assert(seqs::trim_start(kk) == kk);
    assert(kk.drop_last() =~= k);
    assert(seqs::trim_end(k) == k);
    assert(seqs::trim_end(kk) == seqs::trim_end(k));
    lemma_unquote(v);
}

/// A plain value in double quotes, with or without a space before them,
/// reads back as itself.
pub proof fn lemma_unquote(v: Seq<char>)
    requires
        plain_value(v),
    ensures
        unquoted(seq![' ', '"'] + v + seq!['"']) == v,
        unquoted(seq!['"'] + v + seq!['"']) == v,
{
    let rest = seq![' ', '"'] + v + seq!['"'];
    let q = seq!['"', '\''];
    assert(q.contains('"')) by {
        assert(q[0] == '"');
    }
    assert(seqs::trim_start(rest) == seqs::trim_start(rest.drop_first()));
    let inner = seq!['"'] + v + seq!['"'];
    assert(rest.drop_first() =~= inner);
    assert(seqs::trim_start(inner) == inner);
    assert(seqs::trim_end(inner) == inner);
    assert(seqs::strip_start(inner, q) == seqs::strip_start(inner.drop_first(), q));
    let tail = v + seq!['"'];
    assert(inner.drop_first() =~= tail);
    if v.len() > 0 {
        assert(!q.contains(v[0])) by {
            if q.contains(v[0]) {
                let j = choose|j: int| 0 <= j < 2 && q[j] == v[0];
                assert(j == 0 || j == 1);
            }
        }
        assert(tail[0] == v[0]);
        assert(seqs::strip_start(tail, q) == tail);
        assert(tail.drop_last() =~= v);
        assert(seqs::strip_end(tail, q) == seqs::strip_end(v, q));
        assert(!q.contains(v.last())) by {
            if q.contains(v.last()) {
                let j = choose|j: int| 0 <= j < 2 && q[j] == v.last();
                assert(j == 0 || j == 1);
            }
        }
        assert(seqs::strip_end(v, q) == v);
    } else {
        assert(tail =~= seq!['"']);
        assert(seqs::strip_start(tail, q) == seqs::strip_start(tail.drop_first(), q));
        assert(tail.drop_first() =~= Seq::<char>::empty());
        assert(seqs::strip_start(tail, q) =~= Seq::<char>::empty());
        assert(v =~= Seq::<char>::empty());
    }
}

/// The four lines of one channel add it to what was read before.
proof fn lemma_chunk_read(prev: Seq<(Seq<char>, Seq<char>)>, c: (Seq<char>, Seq<char>))
    requires
        clean_channel(c),
    ensures
        channels_from(
            prev,
            seq![seq![], channel_header(), kv_line(url_key(), c.0), kv_line(sync_key(), c.1)],
        ) == prev.push(c),
{
    let h = channel_header();
    let lu = kv_line(url_key(), c.0);
    let ls = kv_line(sync_key(), c.1);
    let chunk = seq![Seq::<char>::empty(), h, lu, ls];
    assert(plain_key(url_key()));
    assert(plain_key(sync_key()));
    lemma_kv_read(url_key(), c.0);
    lemma_kv_read(sync_key(), c.1);
    // The blank line.
    let e = Seq::<char>::empty();
    assert(seqs::before_any(e, seq!['#']) =~= e) by {
        seqs::lemma_before_none(e, seq!['#']);
    }
    assert(seqs::trim(e) =~= e);
    assert(content(e) =~= e);
    assert(e != h) by {
        assert(h.len() == 11);
    }
    seqs::lemma_find(e, seq!['='], 0);
    assert(seqs::split_once(e, seq!['=']) is None);
    assert(channel_step(prev, e) == prev);
    // The header.
    assert forall|i: int| 0 <= i < h.len() implies !seq!['#'].contains(#[trigger] h[i]) by {
        if seq!['#'].contains(h[i]) {
            let j = choose|j: int| 0 <= j < 1 && seq!['#'][j] == h[i];
            assert(j == 0);
        }
    }
    seqs::lemma_before_none(h, seq!['#']);
    seqs::lemma_trim_ends(h);
    let s2 = prev.push((e, e));
    assert(channel_step(prev, h) == s2);
    // The url line.
    assert(content(lu) != h) by {
        assert(lu[0] == 'u');
    }
    let s3 = prev.push((c.0, e));
    assert(channel_step(s2, lu) =~= s3);
    // The date line.
    assert(content(ls) != h) by {
        assert(ls[0] == 'l');
    }
    assert(sync_key() != url_key()) by {
        assert(sync_key().len() != url_key().len());
    }
    assert(channel_step(s3, ls) =~= prev.push(c));
    // And the four in order.
    assert(chunk.drop_last() =~= seq![e, h, lu]);
    assert(chunk.drop_last().drop_last() =~= seq![e, h]);
    assert(chunk.drop_last().drop_last().drop_last() =~= seq![e]);
    assert(seq![e].drop_last() =~= Seq::<Seq<char>>::empty());
    assert(channels_from(prev, Seq::<Seq<char>>::empty()) == prev);
    assert(seq![e].last() == e);
    assert(channels_from(prev, seq![e]) == channel_step(prev, e));
    assert(channels_from(prev, seq![e, h]) == channel_step(channels_from(prev, seq![e]), h));
    assert(channels_from(prev, seq![e, h, lu]) == channel_step(channels_from(prev, seq![e, h]), lu));
    assert(channels_from(prev, chunk) == channel_step(channels_from(prev, seq![e, h, lu]), ls));
}

/// Every line of the file is one `str::lines` gives back whole.
proof fn lemma_channel_lines_whole(cs: Seq<(Seq<char>, Seq<char>)>)
    requires
        forall|k: int| 0 <= k < cs.len() ==> clean_channel(#[trigger] cs[k]),
    ensures
        forall|k: int| 0 <= k < channel_lines(cs).len() ==> seqs::one_line(#[trigger] channel_lines(cs)[k]),
    decreases cs.len(),
{
    if cs.len() == 0 {
        reveal_strlit("# muxget channel sync");
        assert(seqs::one_line(channels_banner()));
        assert(channel_lines(cs) == seq![channels_banner()]);
    } else {
        let init = cs.drop_last();
        assert forall|k: int| 0 <= k < init.len() implies clean_channel(#[trigger] init[k]) by {
            assert(init[k] == cs[k]);
        }
        lemma_channel_lines_whole(init);
        let c = cs.last();
        assert(clean_channel(cs[cs.len() - 1]));
        assert(plain_key(url_key()));
        assert(plain_key(sync_key()));
        lemma_kv_read(url_key(), c.0);
        lemma_kv_read(sync_key(), c.1);
        assert(seqs::one_line(channel_header()));
        assert(seqs::one_line(Seq::<char>::empty()));
        let chunk = seq![Seq::<char>::empty(), channel_header(), kv_line(url_key(), c.0), kv_line(sync_key(), c.1)];
        let before = channel_lines(init);
        assert(channel_lines(cs) == before + chunk);
        assert forall|k: int| 0 <= k < channel_lines(cs).len() implies seqs::one_line(
            #[trigger] channel_lines(cs)[k],
        ) by {
            if k < before.len() {
                assert(channel_lines(cs)[k] == before[k]);
            } else {
                assert(channel_lines(cs)[k] == chunk[k - before.len()]);
            }
        }
    }
}

/// Reading back the lines of the file gives the channels.
proof fn lemma_channel_lines_read(cs: Seq<(Seq<char>, Seq<char>)>)
    requires
        forall|k: int| 0 <= k < cs.len() ==> clean_channel(#[trigger] cs[k]),
    ensures
        channels_from(seq![], channel_lines(cs)) == cs,
    decreases cs.len(),
{
    if cs.len() == 0 {
        reveal_strlit("# muxget channel sync");
        let b = channels_banner();
        seqs::lemma_find_any(b, seq!['#'], 0);
        assert(seq!['#'].contains(b[0])) by {
            assert(seq!['#'][0] == '#');
        }
        assert(seqs::before_any(b, seq!['#']) =~= Seq::<char>::empty());
        assert(content(b) =~= Seq::<char>::empty());
        assert(content(b) != channel_header()) by {
            assert(channel_header().len() == 11);
        }
        assert(seq![b].drop_last() =~= Seq::<Seq<char>>::empty());
        assert(channels_from(seq![], Seq::<Seq<char>>::empty()) == Seq::<(Seq<char>, Seq<char>)>::empty());
        assert(channel_lines(cs) == seq![b]);
        assert(channel_step(seq![], b) == Seq::<(Seq<char>, Seq<char>)>::empty());
        assert(cs =~= Seq::<(Seq<char>, Seq<char>)>::empty());
    } else {
        let init = cs.drop_last();
        assert forall|k: int| 0 <= k < init.len() implies clean_channel(#[trigger] init[k]) by {
            assert(init[k] == cs[k]);
        }
        lemma_channel_lines_read(init);
        let c = cs.last();
        assert(clean_channel(cs[cs.len() - 1]));
        let chunk = seq![Seq::<char>::empty(), channel_header(), kv_line(url_key(), c.0), kv_line(sync_key(), c.1)];
        assert(channel_lines(cs) == channel_lines(init) + chunk);
        lemma_channels_concat(seq![], channel_lines(init), chunk);
        lemma_chunk_read(init, c);
        assert(init.push(c) =~= cs);
    }
}

/// Every channel has a url, so none is dropped.
proof fn lemma_with_url_all(cs: Seq<(Seq<char>, Seq<char>)>)
    requires
        forall|k: int| 0 <= k < cs.len() ==> (#[trigger] cs[k]).0.len() > 0,
    ensures
        with_url(cs) == cs,
    decreases cs.len(),
{
    if cs.len() > 0 {
        let init = cs.drop_last();
        assert forall|k: int| 0 <= k < init.len() implies (#[trigger] init[k]).0.len() > 0 by {
            assert(init[k] == cs[k]);
        }
        lemma_with_url_all(init);
        assert(cs[cs.len() - 1].0.len() > 0);
        assert(init.push(cs.last()) =~= cs);
    }
}

/// What `render` writes, `parse` reads back: the same channels in the same
/// order, for channels the file can hold as they are. `render` and `parse`
/// ensure they write `ended(channel_lines(..))` and read `channels_of`, so
/// this is what `parse(&render(..))` gives.
pub proof fn law_channels_round_trip(cs: Seq<(Seq<char>, Seq<char>)>)
    requires
        forall|k: int| 0 <= k < cs.len() ==> clean_channel(#[trigger] cs[k]),
    ensures
        channels_of(seqs::ended(channel_lines(cs))) == cs,
{
    lemma_channel_lines_whole(cs);
    seqs::lemma_lines_ended(channel_lines(cs));
    lemma_channel_lines_read(cs);
    assert forall|k: int| 0 <= k < cs.len() implies (#[trigger] cs[k]).0.len() > 0 by {
        assert(clean_channel(cs[k]));
    }
    lemma_with_url_all(cs);
}

} // verus!
