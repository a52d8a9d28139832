use muxget::args;
use muxget::backend::Tool;
use muxget::channel::Channel;
use muxget::edit::Key;
use muxget::options::Action;
use muxget::rule::{self, Rule};
use muxget::settings::{general_row, tab_name, Settings, RULE_ROWS};

fn open(tab: usize, backend: &'static str) -> Settings {
    Settings::open(tab, backend, &[], &[], Vec::new(), Vec::new(), 0)
}

fn typed(p: &mut Settings, keys: &str) {
    for c in keys.chars() {
        p.on_key(Key::Char(c));
    }
}

#[test]
fn tabs_cycle_and_reset_the_cursor() {
    let mut p = open(0, "aria2c");
    assert_eq!(tab_name(p.tab), "general");

    p.on_key(Key::Down);
    assert_eq!(p.cursor, 1);
    p.on_key(Key::Tab);
    assert_eq!(tab_name(p.tab), "backends");
    assert_eq!(p.cursor, 0, "each tab starts at the top");

    p.on_key(Key::Tab);
    assert_eq!(tab_name(p.tab), "crawler");
    p.on_key(Key::Tab);
    assert_eq!(tab_name(p.tab), "categories");
    p.on_key(Key::Tab);
    assert_eq!(tab_name(p.tab), "channels");
    p.on_key(Key::Tab);
    assert_eq!(tab_name(p.tab), "log");
    p.on_key(Key::Tab);
    assert_eq!(tab_name(p.tab), "general", "wraps around");
    p.on_key(Key::BackTab);
    assert_eq!(tab_name(p.tab), "log", "and backwards");
}

#[test]
fn general_rows_hand_their_action_to_the_app() {
    let mut p = open(0, "aria2c");
    assert_eq!(general_row(0), "theme");
    assert_eq!(p.on_key(Key::Enter), Action::NextTheme);
    assert_eq!(p.on_key(Key::Char('T')), Action::PrevTheme);
    p.on_key(Key::Down);
    assert_eq!(p.on_key(Key::Enter), Action::EditDir);
    p.on_key(Key::Down);
    assert_eq!(p.on_key(Key::Enter), Action::ToggleNerd);
    p.on_key(Key::Down);
    assert_eq!(p.on_key(Key::Enter), Action::ToggleConfirmPlaylist);
    // The list ends rather than wrapping onto nothing.
    p.on_key(Key::Down);
    assert_eq!(p.cursor, 3);
    assert_eq!(p.on_key(Key::Esc), Action::Close);
}

#[test]
fn the_backends_tab_edits_one_backend_at_a_time() {
    let mut p = open(1, "aria2c");
    assert_eq!(p.options.backend, "aria2c");

    // `b` asks for the next backend; the app saves this form and opens it.
    assert_eq!(p.on_key(Key::Char('b')), Action::Backend(Tool::YtDlp));
    p.show_backend("yt-dlp", &[]);
    assert_eq!(p.on_key(Key::Char('b')), Action::Backend(Tool::Wget));
    p.show_backend("wget", &[]);
    assert_eq!(p.on_key(Key::Char('b')), Action::Backend(Tool::Aria2));
    p.show_backend("aria2c", &args::parse("--split=4"));
    assert_eq!(p.options.value("--split"), Some("4"));

    // Toggling reaches the form under the cursor.
    let flag = "--check-integrity";
    p.cursor = p.options.specs().iter().position(|s| s.flag == flag).unwrap();
    p.on_key(Key::Enter);
    assert!(p.options.is_set(flag));
}

#[test]
fn a_value_being_typed_keeps_the_keyboard() {
    let mut p = open(1, "aria2c");
    p.cursor = p.options.specs().iter().position(|s| s.flag == "--split").unwrap();
    p.on_key(Key::Enter);
    assert!(p.options.editing.is_some());

    // `l` would change tab; while editing it is just a character.
    p.on_key(Key::Char('l'));
    assert_eq!(tab_name(p.tab), "backends");
    assert_eq!(p.options.editing.as_deref(), Some("l"));
}

#[test]
fn a_rule_is_built_edited_and_removed_from_the_panel() {
    let mut p = open(3, "aria2c");
    assert_eq!(p.rows(), 0, "nothing to walk before the first rule");

    // `n` adds a rule and puts the cursor on it.
    p.on_key(Key::Char('n'));
    assert_eq!(p.rules.len(), 1);
    assert_eq!(p.rows(), RULE_ROWS, "a header row plus one per field");

    // Down onto `extensions`, Enter to type into it.
    p.on_key(Key::Down);
    p.on_key(Key::Enter);
    typed(&mut p, ".MP4, mkv");
    p.on_key(Key::Enter);
    assert_eq!(p.rules[0].extensions, ["mp4", "mkv"], "dots and case are cleaned up");

    // The destination fields are plain text.
    p.cursor = 5; // queue, after extensions, domains, pattern and min_size
    p.on_key(Key::Enter);
    typed(&mut p, "video");
    p.on_key(Key::Enter);
    assert_eq!(p.rules[0].queue.as_deref(), Some("video"));

    // Esc abandons what was being typed.
    p.on_key(Key::Enter);
    typed(&mut p, "junk");
    p.on_key(Key::Esc);
    assert_eq!(p.rules[0].queue.as_deref(), Some("video"), "unchanged");

    // `x` clears a field, and on the header row deletes the whole rule.
    p.on_key(Key::Char('x'));
    assert_eq!(p.rules[0].queue, None);
    p.cursor = 0;
    p.on_key(Key::Char('x'));
    assert!(p.rules.is_empty());
}

#[test]
fn rules_round_trip_through_the_file_the_panel_writes() {
    let mut rule = Rule::empty();
    rule.set(0, "mp4, mkv");
    rule.set(1, "YouTube.com");
    rule.set(2, "500M");
    rule.set(3, "video");
    rule.set(4, "/tmp/video");
    rule.set(5, "yt-dlp");

    let back = rule::parse(&rule::render(&[rule.clone()]));
    assert_eq!(back, vec![rule], "what the panel writes is what it reads");

    // A rule that decides nothing is not a rule; parse drops it.
    let mut empty = Rule::empty();
    empty.set(0, "iso");
    assert!(rule::parse(&rule::render(&[empty])).is_empty());
}

#[test]
fn channels_are_added_dated_synced_and_dropped() {
    let mut p = open(4, "aria2c");
    // `n` opens a new channel's url for typing.
    p.on_key(Key::Char('n'));
    assert_eq!(p.channels.len(), 1);
    typed(&mut p, "https://y.com/@mit");
    p.on_key(Key::Enter);
    assert_eq!(p.channels[0].url, "https://y.com/@mit");
    assert!(p.editing_channel.is_none());

    // `d` types its last sync, stored the way yt-dlp reads one.
    p.on_key(Key::Char('d'));
    typed(&mut p, "2024-05-01");
    p.on_key(Key::Enter);
    assert_eq!(p.channels[0].last_sync, "20240501");

    assert_eq!(p.on_key(Key::Char('s')), Action::SyncChannel(0));
    assert_eq!(p.on_key(Key::Char('S')), Action::SyncChannels);

    // A row added and left without a url is not a channel.
    p.on_key(Key::Char('n'));
    p.on_key(Key::Esc);
    assert_eq!(p.channels.len(), 1);

    p.on_key(Key::Char('x'));
    assert!(p.channels.is_empty());
}

#[test]
fn the_log_tab_clears_and_jumps_to_the_newest_line() {
    let mut p = Settings::open(5, "aria2c", &[], &[], Vec::new(), vec![Channel::default()], 12);
    p.on_key(Key::Char('G'));
    assert_eq!(p.cursor, 11, "the newest line");
    p.on_key(Key::Char('g'));
    assert_eq!(p.cursor, 0);
    p.on_key(Key::End);
    assert_eq!(p.on_key(Key::Char('x')), Action::ClearLog);
    assert_eq!(p.cursor, 0);
}

#[test]
fn the_tabs_and_general_rows_are_labelled_in_order() {
    let tabs: Vec<&str> = (0..6).map(tab_name).collect();
    assert_eq!(tabs, ["general", "backends", "crawler", "categories", "channels", "log"]);
    let rows: Vec<&str> = (0..4).map(general_row).collect();
    assert_eq!(rows, ["theme", "download directory", "nerd font icons", "confirm before dl playlist"]);
}
