//! The manual: its pages, and how a line of it is laid out.
use vstd::prelude::*;

use crate::seqs;
use crate::text;

verus! {

/// A page of the manual: its tab name and its lines. A line is either
/// `key\tmeaning`, which is laid out as a key table, or prose.
pub struct Page {
    pub name: &'static str,
    pub lines: &'static [&'static str],
}

/// The pages' names, in tab order.
pub open spec fn page_name(i: int) -> Seq<char> {
    if i == 0 {
        "basics"@
    } else if i == 1 {
        "moving"@
    } else if i == 2 {
        "select"@
    } else if i == 3 {
        "items"@
    } else if i == 4 {
        "queues"@
    } else if i == 5 {
        "lists"@
    } else if i == 6 {
        "crawl"@
    } else {
        "settings"@
    }
}

/// How many lines each page has.
pub open spec fn page_len(i: int) -> nat {
    if i == 0 {
        11
    } else if i == 1 {
        11
    } else if i == 2 {
        11
    } else if i == 3 {
        11
    } else if i == 4 {
        12
    } else if i == 5 {
        13
    } else if i == 6 {
        14
    } else {
        13
    }
}

/// How many pages the manual has.
pub const PAGE_COUNT: usize = 8;

/// The manual's pages, in tab order.
pub fn pages() -> (r: Vec<Page>)
    ensures
        r.len() == PAGE_COUNT,
        forall|i: int| 0 <= i < PAGE_COUNT ==> (#[trigger] r[i]).name@ == page_name(i) && r[i].lines@.len() == page_len(i),
{
    let mut v: Vec<Page> = Vec::new();
    v.push(
        Page {
            name: "basics",
            lines: &[
                "muxget drives aria2c, yt-dlp and wget. A url goes to whichever of them",
                "claims it, and every download is a row in a queue.",
                "",
                "a\tadd a url, with per-download settings",
                "v\tadd every url in the clipboard, after a preview",
                "c\tcrawl a page for links",
                "e\tedit the selected url — this restarts it",
                "Tab / f\tcycle filter: all / active / done / failed",
                "s\tsettings",
                "?\tthis manual",
                "q / ZZ\tquit",
            ],
        },
    );
    v.push(
        Page {
            name: "moving",
            lines: &[
                "The list takes vim's movements, and a count repeats them: 5j, 12G.",
                "",
                "j / k\tdown / up one row",
                "gg / G\tfirst / last row — 5G is the fifth",
                "Ctrl-d / Ctrl-u\thalf a screen down / up",
                "Ctrl-f / Ctrl-b\ta whole screen down / up",
                "[ / ]\tprevious / next queue",
                "J / K\tmove the download within its queue",
                "",
                "The mouse works too: click a queue, a filter or a row, and scroll over",
                "the list or the queue sidebar.",
            ],
        },
    );
    v.push(
        Page {
            name: "select",
            lines: &[
                "Space\tselect or deselect the row under the cursor",
                "M\tselect from the last selected row to the cursor",
                "A\tselect every row on screen, or none if they all are",
                "",
                "Every per-row command then acts on the selection — p, x, d, it, iR.",
                "With nothing selected they act on the row under the cursor, so this is",
                "something you opt into.",
                "",
                "Selections are download ids, not row numbers: they survive filtering,",
                "reordering and deleting several rows at once. A command clears the",
                "selection when it is done.",
            ],
        },
    );
    v.push(
        Page {
            name: "items",
            lines: &[
                "p\tpause or resume",
                "x\tstop, keeping the row",
                "d / Del\tdelete (asks first)",
                "ir / iR\tremove — iR deletes the file too",
                "it\tretry a failed or cancelled download",
                "io / if\topen the file / its folder",
                "iF\tforce restart a stalled torrent",
                "",
                "A pause keeps the process and its partial file; the slot it held goes to",
                "whatever is waiting. A failed download is retried up to its queue's",
                "retry limit on its own; `it` retries it past that limit.",
            ],
        },
    );
    v.push(
        Page {
            name: "queues",
            lines: &[
                "Each queue runs its own downloads, up to its own slot count.",
                "",
                "gn / gr / gd\tnew / rename / delete queue",
                "gc\tclear the finished rows",
                "C / gC\tclear every row (asks first)",
                "gp / gP\tpause this queue / every queue",
                "gt\tschedule: window, days, sync, retry, quota",
                "g+ / g-\tone more / one less slot",
                "g> / g<\tmove this queue in the tab order",
                "",
                "A schedule reads like 22:00-06:00 mon-fri retry=3 quota=150MB/4h.",
                "Clearing never deletes files; only iR does that.",
            ],
        },
    );
    v.push(
        Page {
            name: "lists",
            lines: &[
                "A playlist, channel or mix expands into one row per video.",
                "",
                "Turn on `confirm before dl playlist` in settings and it opens a picker",
                "instead:",
                "",
                "Space / a\tpick a row / all of them",
                "/\tfilter by words in the title — -word excludes, * globs",
                "t / T\tuploaded from / to — dates are approximate, and filter on screen",
                "d\tthe directory they all land in",
                "Enter\tqueue what is picked",
                "",
                "A date range costs time: upload dates are not in a playlist's index, so",
                "yt-dlp has to open every entry to read one.",
            ],
        },
    );
    v.push(
        Page {
            name: "crawl",
            lines: &[
                "c walks a site and comes back with the links it found, to pick from.",
                "Space picks, a picks all, Enter queues.",
                "",
                "The form's fields default to settings > crawler when left empty. Its",
                "options field takes words, each with an opposite:",
                "",
                "any-domain / same-domain\tfollow links off the host",
                "under-path / any-path\tstay at or below the start url",
                "no-robots / robots\tignore robots.txt and nofollow",
                "flat / nested\tsave without the directory tree",
                "offline\tmirror the site for reading offline instead",
                "",
                "Media often lives on another host — a CDN or an archive — which is what",
                "any-domain is for.",
            ],
        },
    );
    v.push(
        Page {
            name: "settings",
            lines: &[
                "s opens the panel; Tab moves between its tabs.",
                "",
                "general\ttheme, download directory, icons, playlist confirmation",
                "backends\taria2c, yt-dlp and wget flags — b switches backend",
                "crawler\tthe defaults the crawl form opens with",
                "categories\trouting rules: n new, Enter edit, x clear or delete",
                "log\twhat every backend did and said — x clears it",
                "",
                "A rule sends matching urls to a queue, a directory or a backend. Its",
                "pattern field captures each * for $1, $2 in those, so one rule can give",
                "youtube.com/@* a directory per channel.",
                "",
                "Everything is a plain file under ~/.config/muxget, editable by hand.",
            ],
        },
    );
    proof {
        reveal_strlit("basics");
        reveal_strlit("moving");
        reveal_strlit("select");
        reveal_strlit("items");
        reveal_strlit("queues");
        reveal_strlit("lists");
        reveal_strlit("crawl");
        reveal_strlit("settings");
    }
    v
}

/// A line of the manual as two columns, the key and what it does, when it
/// has a tab; prose has none.
pub fn key_and_meaning(line: &str) -> (r: Option<(String, String)>)
    ensures
        match r {
            Some((k, m)) => seqs::split_once(line@, seq!['\t']) == Some((k@, m@)),
            None => seqs::split_once(line@, seq!['\t']) is None,
        },
{
    let chars = text::chars_of(line);
    match text::split_once(chars.as_slice(), text::one('\t').as_slice()) {
        Some((k, m)) => Some((text::string_of(k.as_slice()), text::string_of(m.as_slice()))),
        None => None,
    }
}

} // verus!
