//! The keymap of the list: which command a key stands for, with vim's
//! counts and two-key sequences, and the keys every confirmation, text
//! prompt and the manual share. The caller carries the commands out.
use vstd::prelude::*;

use crate::download::Filter;
use crate::edit::Key;

verus! {

/// What a key in the list asks for.
#[derive(Debug, Clone, Copy, PartialEq, Eq)]
pub enum Command {
    Nothing,
    Quit,
    /// The first key of a sequence: wait for the second.
    Prefix(char),
    OpenSettings,
    OpenAdd,
    OpenCrawl,
    Paste,
    OpenHelp,
    /// Edit the selected row's url.
    Edit,
    /// Ask before removing the selected row.
    Delete,
    /// Ask before removing the selected row and its file.
    DeleteData,
    Mark,
    MarkRange,
    MarkAll,
    TogglePause,
    /// Ask before clearing the viewed queue: every row when set, the
    /// finished ones otherwise.
    Clear(bool),
    PauseAll,
    Cancel,
    /// View the queue this many places along.
    CycleQueue(i64),
    /// Move the selection this many rows.
    MoveSelection(i64),
    /// Select this row of the shown ones; past the end is the last.
    GotoRow(usize),
    /// Move the selected row this many places: order is priority.
    MoveDownload(i64),
    NextFilter,
    ForceRestart,
    Retry,
    Open,
    Reveal,
    NewQueue,
    RenameQueue,
    DeleteQueue,
    PauseQueue,
    ScheduleQueue,
    /// Move the viewed queue this many places in the tab order.
    MoveQueue(i64),
    /// One slot more (true) or fewer (false) for the viewed queue.
    Slots(bool),
}

/// A count as vim builds it, one digit at a time, held at the top.
pub open spec fn counted(count: Option<usize>, digit: nat) -> usize {
    let n = match count {
        Some(n) => n as nat,
        None => 0,
    } * 10 + digit;
    if n > usize::MAX {
        usize::MAX
    } else {
        n as usize
    }
}

/// How many rows a movement goes: its count, or one.
pub open spec fn steps(count: Option<usize>) -> i64 {
    match count {
        Some(n) => if n > i64::MAX {
            i64::MAX
        } else {
            n as i64
        },
        None => 1,
    }
}

/// The command a key stands for in the list, and the count left for the
/// next key. A digit builds the count (a `0` only once one is going); a
/// count is used by the command right after it, and survives only the first
/// key of a sequence.
pub open spec fn normal_of(key: Key, count: Option<usize>) -> (Command, Option<usize>) {
    match key {
        Key::Char(c) => if '0' <= c <= '9' && (c != '0' || count is Some) {
            (Command::Nothing, Some(counted(count, (c as u32 - '0' as u32) as nat)))
        } else if c == 'g' || c == 'i' || c == 'Z' {
            (Command::Prefix(c), count)
        } else {
            (
                if c == 'q' {
                    Command::Quit
                } else if c == 's' {
                    Command::OpenSettings
                } else if c == 'a' {
                    Command::OpenAdd
                } else if c == 'c' {
                    Command::OpenCrawl
                } else if c == 'v' {
                    Command::Paste
                } else if c == '?' {
                    Command::OpenHelp
                } else if c == 'e' {
                    Command::Edit
                } else if c == 'd' {
                    Command::Delete
                } else if c == 'm' || c == ' ' {
                    Command::Mark
                } else if c == 'M' {
                    Command::MarkRange
                } else if c == 'A' {
                    Command::MarkAll
                } else if c == 'p' {
                    Command::TogglePause
                } else if c == 'C' {
                    Command::Clear(true)
                } else if c == 'P' {
                    Command::PauseAll
                } else if c == 'x' {
                    Command::Cancel
                } else if c == ']' {
                    Command::CycleQueue(1i64)
                } else if c == '[' {
                    Command::CycleQueue(-1i64)
                } else if c == 'j' {
                    Command::MoveSelection(steps(count))
                } else if c == 'k' {
                    Command::MoveSelection((-steps(count)) as i64)
                } else if c == 'G' {
                    Command::GotoRow(match count {
                        Some(n) => if n > 0 { (n - 1) as usize } else { 0 },
                        None => usize::MAX,
                    })
                } else if c == 'J' {
                    Command::MoveDownload(1i64)
                } else if c == 'K' {
                    Command::MoveDownload(-1i64)
                } else if c == 'f' {
                    Command::NextFilter
                } else {
                    Command::Nothing
                },
                None,
            )
        },
        Key::Delete => (Command::Delete, None),
        Key::Right => (Command::CycleQueue(1i64), None),
        Key::Left => (Command::CycleQueue(-1i64), None),
        Key::Down => (Command::MoveSelection(steps(count)), None),
        Key::Up => (Command::MoveSelection((-steps(count)) as i64), None),
        Key::End => (Command::GotoRow(match count {
            Some(n) => if n > 0 { (n - 1) as usize } else { 0 },
            None => usize::MAX,
        }), None),
        Key::Home => (Command::GotoRow(0), None),
        Key::Tab => (Command::NextFilter, None),
        _ => (Command::Nothing, None),
    }
}

fn steps_of(count: Option<usize>) -> (r: i64)
    ensures
        r == steps(count),
        r >= 1 || count == Some(0usize),
        r >= 0,
{
    match count {
        Some(n) => if n as u128 > i64::MAX as u128 { i64::MAX } else { n as i64 },
        None => 1,
    }
}

fn row_of(count: Option<usize>) -> (r: usize)
    ensures
        r == match count {
            Some(n) => if n > 0 { (n - 1) as usize } else { 0 },
            None => usize::MAX,
        },
{
    match count {
        Some(n) => if n > 0 { n - 1 } else { 0 },
        None => usize::MAX,
    }
}

/// One key in the list: the command it stands for, and the count left for
/// the next key.
pub fn normal_key(key: Key, count: Option<usize>) -> (r: (Command, Option<usize>))
    ensures
        r == normal_of(key, count),
{
    match key {
        Key::Char(c) => {
            if '0' <= c && c <= '9' && (c != '0' || count.is_some()) {
                let d = (c as u32 - '0' as u32) as usize;
                let n = match count {
                    Some(n) => n,
                    None => 0,
                };
                let next = if n as u128 * 10 + d as u128 > usize::MAX as u128 {
                    usize::MAX
                } else {
                    n * 10 + d
                };
                return (Command::Nothing, Some(next));
            }
            if c == 'g' || c == 'i' || c == 'Z' {
                return (Command::Prefix(c), count);
            }
            let cmd = if c == 'q' {
                Command::Quit
            } else if c == 's' {
                Command::OpenSettings
            } else if c == 'a' {
                Command::OpenAdd
            } else if c == 'c' {
                Command::OpenCrawl
            } else if c == 'v' {
                Command::Paste
            } else if c == '?' {
                Command::OpenHelp
            } else if c == 'e' {
                Command::Edit
            } else if c == 'd' {
                Command::Delete
            } else if c == 'm' || c == ' ' {
                Command::Mark
            } else if c == 'M' {
                Command::MarkRange
            } else if c == 'A' {
                Command::MarkAll
            } else if c == 'p' {
                Command::TogglePause
            } else if c == 'C' {
                Command::Clear(true)
            } else if c == 'P' {
                Command::PauseAll
            } else if c == 'x' {
                Command::Cancel
            } else if c == ']' {
                Command::CycleQueue(1i64)
            } else if c == '[' {
                Command::CycleQueue(-1i64)
            } else if c == 'j' {
                Command::MoveSelection(steps_of(count))
            } else if c == 'k' {
                Command::MoveSelection(-steps_of(count))
            } else if c == 'G' {
                Command::GotoRow(row_of(count))
            } else if c == 'J' {
                Command::MoveDownload(1i64)
            } else if c == 'K' {
                Command::MoveDownload(-1i64)
            } else if c == 'f' {
                Command::NextFilter
            } else {
                Command::Nothing
            };
            (cmd, None)
        },
        Key::Delete => (Command::Delete, None),
        Key::Right => (Command::CycleQueue(1i64), None),
        Key::Left => (Command::CycleQueue(-1i64), None),
        Key::Down => (Command::MoveSelection(steps_of(count)), None),
        Key::Up => (Command::MoveSelection(-steps_of(count)), None),
        Key::End => (Command::GotoRow(row_of(count)), None),
        Key::Home => (Command::GotoRow(0), None),
        Key::Tab => (Command::NextFilter, None),
        _ => (Command::Nothing, None),
    }
}

/// The second key of a sequence. Anything unlisted quietly cancels, as in
/// vim; `gg` goes to the row its count names, or the first.
pub open spec fn sequence_of(prefix: char, key: Key, count: Option<usize>) -> Command {
    match key {
        Key::Char(c) => if prefix == 'Z' {
            if c == 'Z' || c == 'Q' {
                Command::Quit
            } else {
                Command::Nothing
            }
        } else if prefix == 'i' {
            if c == 'r' {
                Command::Delete
            } else if c == 'R' {
                Command::DeleteData
            } else if c == 'F' {
                Command::ForceRestart
            } else if c == 't' {
                Command::Retry
            } else if c == 'o' {
                Command::Open
            } else if c == 'f' {
                Command::Reveal
            } else {
                Command::Nothing
            }
        } else if prefix == 'g' {
            if c == 'n' {
                Command::NewQueue
            } else if c == 'r' {
                Command::RenameQueue
            } else if c == 'd' {
                Command::DeleteQueue
            } else if c == 'c' {
                Command::Clear(false)
            } else if c == 'C' {
                Command::Clear(true)
            } else if c == 'p' {
                Command::PauseQueue
            } else if c == 't' {
                Command::ScheduleQueue
            } else if c == 'P' {
                Command::PauseAll
            } else if c == 'g' {
                Command::GotoRow(match count {
                    Some(n) => if n > 0 { (n - 1) as usize } else { 0 },
                    None => 0,
                })
            } else if c == 'j' || c == 'l' {
                Command::CycleQueue(1i64)
            } else if c == 'k' || c == 'h' {
                Command::CycleQueue(-1i64)
            } else if c == '>' {
                Command::MoveQueue(1i64)
            } else if c == '<' {
                Command::MoveQueue(-1i64)
            } else if c == '+' || c == '=' {
                Command::Slots(true)
            } else if c == '-' {
                Command::Slots(false)
            } else {
                Command::Nothing
            }
        } else {
            Command::Nothing
        },
        _ => Command::Nothing,
    }
}

/// The second key of a sequence started with `prefix`. The count is used up
/// either way.
pub fn sequence_key(prefix: char, key: Key, count: Option<usize>) -> (r: Command)
    ensures
        r == sequence_of(prefix, key, count),
{
    let c = match key {
        Key::Char(c) => c,
        _ => {
            return Command::Nothing;
        },
    };
    if prefix == 'Z' {
        if c == 'Z' || c == 'Q' {
            Command::Quit
        } else {
            Command::Nothing
        }
    } else if prefix == 'i' {
        if c == 'r' {
            Command::Delete
        } else if c == 'R' {
            Command::DeleteData
        } else if c == 'F' {
            Command::ForceRestart
        } else if c == 't' {
            Command::Retry
        } else if c == 'o' {
            Command::Open
        } else if c == 'f' {
            Command::Reveal
        } else {
            Command::Nothing
        }
    } else if prefix == 'g' {
        if c == 'n' {
            Command::NewQueue
        } else if c == 'r' {
            Command::RenameQueue
        } else if c == 'd' {
            Command::DeleteQueue
        } else if c == 'c' {
            Command::Clear(false)
        } else if c == 'C' {
            Command::Clear(true)
        } else if c == 'p' {
            Command::PauseQueue
        } else if c == 't' {
            Command::ScheduleQueue
        } else if c == 'P' {
            Command::PauseAll
        } else if c == 'g' {
            Command::GotoRow(match count {
                Some(n) => if n > 0 { n - 1 } else { 0 },
                None => 0,
            })
        } else if c == 'j' || c == 'l' {
            Command::CycleQueue(1i64)
        } else if c == 'k' || c == 'h' {
            Command::CycleQueue(-1i64)
        } else if c == '>' {
            Command::MoveQueue(1i64)
        } else if c == '<' {
            Command::MoveQueue(-1i64)
        } else if c == '+' || c == '=' {
            Command::Slots(true)
        } else if c == '-' {
            Command::Slots(false)
        } else {
            Command::Nothing
        }
    } else {
        Command::Nothing
    }
}

/// vim's paging with Ctrl held: half a screen down (`d`) or up (`u`), a
/// whole one forward (`f`) or back (`b`). Other chords are not the list's.
pub open spec fn chord_of(key: Key, page: usize) -> Option<Command> {
    let p = if page > i64::MAX { i64::MAX as int } else { page as int };
    match key {
        Key::Char(c) => if c == 'd' {
            Some(Command::MoveSelection((p / 2) as i64))
        } else if c == 'u' {
            Some(Command::MoveSelection((-(p / 2)) as i64))
        } else if c == 'f' {
            Some(Command::MoveSelection(p as i64))
        } else if c == 'b' {
            Some(Command::MoveSelection((-p) as i64))
        } else {
            None
        },
        _ => None,
    }
}

/// A Ctrl chord in the list, for a screen of `page` rows.
pub fn chord_key(key: Key, page: usize) -> (r: Option<Command>)
    ensures
        r == chord_of(key, page),
{
    let p: i64 = if page as u128 > i64::MAX as u128 { i64::MAX } else { page as i64 };
    match key {
        Key::Char(c) => if c == 'd' {
            Some(Command::MoveSelection(p / 2))
        } else if c == 'u' {
            Some(Command::MoveSelection(-(p / 2)))
        } else if c == 'f' {
            Some(Command::MoveSelection(p))
        } else if c == 'b' {
            Some(Command::MoveSelection(-p))
        } else {
            None
        },
        _ => None,
    }
}

/// The filter after `f`, wrapping: all, active, done, failed.
pub open spec fn after(f: Filter) -> Filter {
    match f {
        Filter::All => Filter::Active,
        Filter::Active => Filter::Done,
        Filter::Done => Filter::Failed,
        Filter::Failed => Filter::All,
    }
}

/// The filter Tab moves to.
pub fn next_filter(f: Filter) -> (r: Filter)
    ensures
        r == after(f),
{
    match f {
        Filter::All => Filter::Active,
        Filter::Active => Filter::Done,
        Filter::Done => Filter::Failed,
        Filter::Failed => Filter::All,
    }
}

// ---------------------------------------------------------------------------
// Prompts
// ---------------------------------------------------------------------------

/// A yes-or-no question's answer: Enter or `y` is yes, Esc or `n` is no,
/// and anything else leaves the question up.
pub open spec fn answer_of(key: Key) -> Option<bool> {
    match key {
        Key::Enter => Some(true),
        Key::Char(c) => if c == 'y' {
            Some(true)
        } else if c == 'n' {
            Some(false)
        } else {
            None
        },
        Key::Esc => Some(false),
        _ => None,
    }
}

/// The answer a key gives a yes-or-no question, if it gives one.
pub fn answer(key: Key) -> (r: Option<bool>)
    ensures
        r == answer_of(key),
{
    match key {
        Key::Enter => Some(true),
        Key::Char('y') => Some(true),
        Key::Char('n') => Some(false),
        Key::Esc => Some(false),
        _ => None,
    }
}

/// Where a one-line prompt stands after a key.
#[derive(Debug, Clone, Copy, PartialEq, Eq)]
pub enum Prompt {
    /// Enter: take what was typed.
    Submit,
    /// Esc: drop it.
    Cancel,
    /// Still typing.
    Typing,
}

/// One key into a one-line prompt: Enter and Esc end it, Backspace takes
/// the last character, a character is added at the end.
pub fn prompt_key(buf: &mut String, key: Key) -> (r: Prompt)
    ensures
        r == match key {
            Key::Enter => Prompt::Submit,
            Key::Esc => Prompt::Cancel,
            _ => Prompt::Typing,
        },
        final(buf)@ == match key {
            Key::Backspace => if old(buf)@.len() > 0 { old(buf)@.drop_last() } else { old(buf)@ },
            Key::Char(c) => old(buf)@.push(c),
            _ => old(buf)@,
        },
{
    match key {
        Key::Enter => Prompt::Submit,
        Key::Esc => Prompt::Cancel,
        Key::Backspace => {
            let t = crate::text::chars_of(buf.as_str());
            if t.len() > 0 {
                *buf = crate::text::string_of(crate::text::slice_of(t.as_slice(), 0, t.len() - 1).as_slice());
                proof {
                    assert(buf@ =~= old(buf)@.drop_last());
                }
            }
            Prompt::Typing
        },
        Key::Char(c) => {
            let mut t = crate::text::chars_of(buf.as_str());
            t.push(c);
            *buf = crate::text::string_of(t.as_slice());
            Prompt::Typing
        },
        _ => Prompt::Typing,
    }
}

/// Where the manual is open: its page, and how far it is scrolled.
#[derive(Debug, Clone, Copy, PartialEq, Eq, Default)]
pub struct Help {
    pub tab: usize,
    pub scroll: usize,
}

/// The manual after a key, or `None` once it is closed. It pages sideways,
/// wrapping, and scrolls down but never past its last line.
pub open spec fn help_of(h: Help, pages: usize, lines: usize, key: Key) -> Option<Help> {
    match key {
        Key::Esc => None,
        Key::Char(c) => if c == 'q' || c == '?' {
            None
        } else if c == 'l' {
            Some(Help { tab: ((h.tab + 1) % (pages as int)) as usize, scroll: 0 })
        } else if c == 'h' {
            Some(Help { tab: ((h.tab + pages - 1) % (pages as int)) as usize, scroll: 0 })
        } else if c == 'j' {
            Some(Help { scroll: if h.scroll + 1 < lines { (h.scroll + 1) as usize } else if lines > 0 { (lines - 1) as usize } else { 0 }, ..h })
        } else if c == 'k' {
            Some(Help { scroll: if h.scroll > 0 { (h.scroll - 1) as usize } else { 0 }, ..h })
        } else if c == 'g' {
            Some(Help { scroll: 0, ..h })
        } else {
            Some(h)
        },
        Key::Tab | Key::Right => Some(Help { tab: ((h.tab + 1) % (pages as int)) as usize, scroll: 0 }),
        Key::BackTab | Key::Left => Some(Help { tab: ((h.tab + pages - 1) % (pages as int)) as usize, scroll: 0 }),
        Key::Down => Some(Help { scroll: if h.scroll + 1 < lines { (h.scroll + 1) as usize } else if lines > 0 { (lines - 1) as usize } else { 0 }, ..h }),
        Key::Up => Some(Help { scroll: if h.scroll > 0 { (h.scroll - 1) as usize } else { 0 }, ..h }),
        _ => Some(h),
    }
}

/// One key while the manual is open, over `pages` pages of which the
/// current has `lines` lines.
pub fn help_key(h: Help, pages: usize, lines: usize, key: Key) -> (r: Option<Help>)
    requires
        pages >= 1,
        h.tab < pages,
    ensures
        r == help_of(h, pages, lines, key),
        r matches Some(n) ==> n.tab < pages,
{
    let next = Help { tab: (h.tab + 1) % pages, scroll: 0 };
    let prev = Help { tab: if h.tab == 0 { pages - 1 } else { h.tab - 1 }, scroll: 0 };
    let down = Help {
        scroll: if h.scroll < lines && h.scroll + 1 < lines { h.scroll + 1 } else if lines > 0 { lines - 1 } else { 0 },
        ..h
    };
    let up = Help { scroll: if h.scroll > 0 { h.scroll - 1 } else { 0 }, ..h };
    proof {
        let t = h.tab as int;
        let n = pages as int;
        if t == 0 {
            assert((t + n - 1) % n == n - 1) by (nonlinear_arith)
                requires t == 0, n >= 1;
        } else {
            assert((t + n - 1) % n == t - 1) by (nonlinear_arith)
                requires 1 <= t < n;
        }
        assert(prev.tab == ((h.tab + pages - 1) % (pages as int)) as usize);
    }
    match key {
        Key::Esc => None,
        Key::Char(c) => if c == 'q' || c == '?' {
            None
        } else if c == 'l' {
            Some(next)
        } else if c == 'h' {
            Some(prev)
        } else if c == 'j' {
            Some(down)
        } else if c == 'k' {
            Some(up)
        } else if c == 'g' {
            Some(Help { scroll: 0, ..h })
        } else {
            Some(h)
        },
        Key::Tab | Key::Right => Some(next),
        Key::BackTab | Key::Left => Some(prev),
        Key::Down => Some(down),
        Key::Up => Some(up),
        _ => Some(h),
    }
}

} // verus!
