use muxget::commands::{answer, chord_key, help_key, next_filter, normal_key, prompt_key, sequence_key, Command, Help, Prompt};
use muxget::download::Filter;
use muxget::edit::Key;
use muxget::keys::{type_in_form, Form};

#[test]
fn key_sequences_show_a_menu_and_swallow_the_next_key() {
    let (cmd, count) = normal_key(Key::Char('g'), None);
    assert_eq!(cmd, Command::Prefix('g'), "menu is up, waiting for the second key");
    assert_eq!(count, None);

    // The second key is consumed by the sequence, never by the normal keymap.
    assert_eq!(sequence_key('g', Key::Char('n'), None), Command::NewQueue);
    // An unbound second key cancels quietly.
    assert_eq!(sequence_key('g', Key::Char('z'), None), Command::Nothing);

    // Sequence navigation.
    assert_eq!(sequence_key('g', Key::Char('k'), None), Command::CycleQueue(-1));
    assert_eq!(sequence_key('g', Key::Char('j'), None), Command::CycleQueue(1));
    assert_eq!(sequence_key('g', Key::Char('+'), None), Command::Slots(true));
    assert_eq!(sequence_key('g', Key::Char('-'), None), Command::Slots(false));
}

#[test]
fn zz_quits_but_a_lone_z_does_not() {
    assert_eq!(normal_key(Key::Char('Z'), None).0, Command::Prefix('Z'));
    assert_eq!(sequence_key('Z', Key::Char('Z'), None), Command::Quit);
    assert_eq!(sequence_key('Z', Key::Char('x'), None), Command::Nothing, "Zx is not a quit");
}

#[test]
fn counts_go_with_the_next_movement() {
    let (_, c) = normal_key(Key::Char('1'), None);
    let (_, c) = normal_key(Key::Char('2'), c);
    assert_eq!(c, Some(12));
    assert_eq!(normal_key(Key::Char('j'), c), (Command::MoveSelection(12), None));
    assert_eq!(normal_key(Key::Up, Some(3)), (Command::MoveSelection(-3), None));
    // A lone 0 is not a count.
    assert_eq!(normal_key(Key::Char('0'), None), (Command::Nothing, None));
    // `G` alone is the last row, `5G` the fifth.
    assert_eq!(normal_key(Key::Char('G'), None).0, Command::GotoRow(usize::MAX));
    assert_eq!(normal_key(Key::Char('G'), Some(5)).0, Command::GotoRow(4));
    // A count survives the first key of a sequence: `5gg`.
    let (cmd, c) = normal_key(Key::Char('g'), Some(5));
    assert_eq!((cmd, c), (Command::Prefix('g'), Some(5)));
    assert_eq!(sequence_key('g', Key::Char('g'), c), Command::GotoRow(4));
    assert_eq!(sequence_key('g', Key::Char('g'), None), Command::GotoRow(0));
    // A huge count is held at the top rather than wrapping.
    assert_eq!(normal_key(Key::Char('9'), Some(usize::MAX)).1, Some(usize::MAX));
}

#[test]
fn the_keymap_names_each_command() {
    assert_eq!(normal_key(Key::Char('q'), None).0, Command::Quit);
    assert_eq!(normal_key(Key::Char('a'), None).0, Command::OpenAdd);
    assert_eq!(normal_key(Key::Char('x'), None).0, Command::Cancel);
    assert_eq!(normal_key(Key::Char('p'), None).0, Command::TogglePause);
    assert_eq!(normal_key(Key::Char('C'), None).0, Command::Clear(true));
    assert_eq!(normal_key(Key::Delete, None).0, Command::Delete);
    assert_eq!(normal_key(Key::Char('K'), None).0, Command::MoveDownload(-1));
    assert_eq!(normal_key(Key::Tab, None).0, Command::NextFilter);
    assert_eq!(sequence_key('i', Key::Char('R'), None), Command::DeleteData);
    assert_eq!(sequence_key('i', Key::Char('t'), None), Command::Retry);
    assert_eq!(sequence_key('g', Key::Char('c'), None), Command::Clear(false));
}

#[test]
fn ctrl_pages_through_the_list() {
    assert_eq!(chord_key(Key::Char('d'), 20), Some(Command::MoveSelection(10)));
    assert_eq!(chord_key(Key::Char('u'), 20), Some(Command::MoveSelection(-10)));
    assert_eq!(chord_key(Key::Char('f'), 20), Some(Command::MoveSelection(20)));
    assert_eq!(chord_key(Key::Char('b'), 20), Some(Command::MoveSelection(-20)));
    assert_eq!(chord_key(Key::Char('w'), 20), None);
}

#[test]
fn filters_cycle_in_order() {
    let mut f = Filter::All;
    let mut seen = Vec::new();
    for _ in 0..4 {
        f = next_filter(f);
        seen.push(f);
    }
    assert_eq!(seen, [Filter::Active, Filter::Done, Filter::Failed, Filter::All]);
}

#[test]
fn questions_and_prompts_take_their_keys() {
    assert_eq!(answer(Key::Char('y')), Some(true));
    assert_eq!(answer(Key::Enter), Some(true));
    assert_eq!(answer(Key::Char('n')), Some(false));
    assert_eq!(answer(Key::Esc), Some(false));
    assert_eq!(answer(Key::Char('q')), None, "the question stays up");

    let mut buf = String::from("medi");
    assert_eq!(prompt_key(&mut buf, Key::Char('a')), Prompt::Typing);
    assert_eq!(buf, "media");
    prompt_key(&mut buf, Key::Backspace);
    assert_eq!(buf, "medi");
    assert_eq!(prompt_key(&mut buf, Key::Enter), Prompt::Submit);
    assert_eq!(prompt_key(&mut buf, Key::Esc), Prompt::Cancel);
    assert_eq!(buf, "medi");
}

#[test]
fn the_manual_pages_and_scrolls_within_bounds() {
    let h = Help::default();
    let h = help_key(h, 3, 2, Key::Down).unwrap();
    assert_eq!(h.scroll, 1);
    let h = help_key(h, 3, 2, Key::Down).unwrap();
    assert_eq!(h.scroll, 1, "never past the last line");
    let h = help_key(h, 3, 2, Key::Left).unwrap();
    assert_eq!((h.tab, h.scroll), (2, 0), "pages wrap backwards");
    let h = help_key(h, 3, 2, Key::Tab).unwrap();
    assert_eq!(h.tab, 0, "and forwards");
    assert_eq!(help_key(h, 3, 2, Key::Char('?')), None);
}

fn typed(form: &mut Form, text: &str) {
    for c in text.chars() {
        assert!(!type_in_form(form, Key::Char(c)));
    }
}

#[test]
fn the_add_form_carries_per_item_settings_into_the_download() {
    let mut form = Form::default();
    typed(&mut form, "https://example.com/a.iso");
    type_in_form(&mut form, Key::Tab); // range — left empty
    type_in_form(&mut form, Key::Tab);
    typed(&mut form, "/tmp/here");
    type_in_form(&mut form, Key::Tab);
    typed(&mut form, "mine.iso");
    type_in_form(&mut form, Key::Tab);
    typed(&mut form, "2M");
    assert!(type_in_form(&mut form, Key::Enter));

    let items = form.items();
    assert_eq!(items.len(), 1);
    let (url, over) = &items[0];
    assert_eq!(url, "https://example.com/a.iso");
    assert_eq!(over.dir, "/tmp/here");
    assert_eq!(over.name, "mine.iso");
    assert_eq!(over.rate, "2M");

    // A plain add leaves every override empty.
    let mut plain = Form::default();
    typed(&mut plain, "https://example.com/b.iso");
    assert!(plain.items()[0].1.is_empty());
}

#[test]
fn a_pattern_and_range_add_one_download_per_number() {
    let mut form = Form::default();
    typed(&mut form, "https://example.com/f%02d.iso");
    type_in_form(&mut form, Key::Tab);
    typed(&mut form, "1-3");
    type_in_form(&mut form, Key::Tab);
    type_in_form(&mut form, Key::Tab);
    typed(&mut form, "local%d.iso");

    let items = form.items();
    let urls: Vec<&str> = items.iter().map(|(u, _)| u.as_str()).collect();
    assert_eq!(
        urls,
        [
            "https://example.com/f01.iso",
            "https://example.com/f02.iso",
            "https://example.com/f03.iso"
        ]
    );
    assert_eq!(items[2].1.name, "local3.iso");
}
