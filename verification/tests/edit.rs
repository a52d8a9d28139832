use muxget::edit::{caret, key, Key, Mods};

const ALT: Mods = Mods { ctrl: false, alt: true };
const CTRL: Mods = Mods { ctrl: true, alt: false };
const NONE: Mods = Mods { ctrl: false, alt: false };

/// Type a string into a field, as a person would.
fn typed(text: &str, at: &mut usize, buf: &mut String) {
    for c in text.chars() {
        assert!(key(buf, at, Key::Char(c), NONE));
    }
}

#[test]
fn text_is_inserted_and_deleted_at_the_caret_not_the_end() {
    let (mut buf, mut at) = (String::new(), usize::MAX);
    typed("helo world", &mut at, &mut buf);
    assert_eq!(at, buf.len(), "typing leaves the caret after what was typed");

    // Back to the missing letter and fix it in place.
    for _ in 0..7 {
        key(&mut buf, &mut at, Key::Left, NONE);
    }
    typed("l", &mut at, &mut buf);
    assert_eq!(buf, "hello world");
    assert_eq!(caret(&buf, at), "hell▏o world", "and the caret is drawn there");

    // Backspace and Delete each take the character on their own side.
    key(&mut buf, &mut at, Key::Backspace, NONE);
    key(&mut buf, &mut at, Key::Delete, NONE);
    assert_eq!(buf, "hel world");
}

#[test]
fn a_word_at_a_time_stops_at_the_parts_of_a_url() {
    let (mut buf, mut at) = (String::new(), usize::MAX);
    typed("https://y.com/watch?v=abc", &mut at, &mut buf);

    // Alt-Backspace takes one part of the url, not the whole thing.
    assert!(key(&mut buf, &mut at, Key::Backspace, ALT));
    assert_eq!(buf, "https://y.com/watch?v=");
    assert!(key(&mut buf, &mut at, Key::Backspace, ALT));
    assert_eq!(buf, "https://y.com/watch?");

    // Ctrl-W is the shell's: back to the last space, so the lot goes.
    assert!(key(&mut buf, &mut at, Key::Char('w'), CTRL));
    assert_eq!(buf, "");
}

#[test]
fn the_line_can_be_walked_and_cut_from_either_end() {
    let (mut buf, mut at) = (String::new(), usize::MAX);
    typed("one two three", &mut at, &mut buf);

    key(&mut buf, &mut at, Key::Home, NONE);
    assert_eq!(at, 0);
    key(&mut buf, &mut at, Key::Right, ALT);
    assert_eq!(caret(&buf, at), "one▏ two three", "a word forward");
    key(&mut buf, &mut at, Key::Char('e'), CTRL);
    assert_eq!(at, buf.len(), "Ctrl-E is the end");

    // Ctrl-U cuts back to the start, Ctrl-K forward to the end.
    key(&mut buf, &mut at, Key::Left, ALT);
    key(&mut buf, &mut at, Key::Char('u'), CTRL);
    assert_eq!(buf, "three");
    key(&mut buf, &mut at, Key::Right, NONE);
    key(&mut buf, &mut at, Key::Char('k'), CTRL);
    assert_eq!(buf, "t");
}

#[test]
fn a_caret_inside_multibyte_text_stays_on_a_character() {
    let (mut buf, mut at) = (String::new(), usize::MAX);
    typed("naïve café", &mut at, &mut buf);
    for _ in 0..5 {
        key(&mut buf, &mut at, Key::Left, NONE);
    }
    // A byte index that split `ï` or `é` would land inside a character.
    assert_eq!(caret(&buf, at), "naïve▏ café");
    key(&mut buf, &mut at, Key::Backspace, NONE);
    assert_eq!(buf, "naïv café");
}

#[test]
fn keys_the_field_does_not_own_are_handed_back() {
    let (mut buf, mut at) = ("x".to_string(), usize::MAX);
    // The caller needs these to submit, cancel and move between fields.
    for key_code in [Key::Enter, Key::Esc, Key::Tab, Key::Up, Key::Down] {
        assert!(!key(&mut buf, &mut at, key_code, NONE), "{key_code:?} is not the field's");
    }
    // Nor are the chords that mean something to the list behind it.
    assert!(!key(&mut buf, &mut at, Key::Char('d'), CTRL));
    assert_eq!(buf, "x", "and none of them changed the text");
}

#[test]
fn a_caret_past_the_end_starts_at_the_end_and_stays_inside() {
    let (mut buf, mut at) = ("abc".to_string(), usize::MAX);
    assert!(key(&mut buf, &mut at, Key::Right, NONE));
    assert_eq!(at, 3, "moving right from the end stays at the end");
    assert!(key(&mut buf, &mut at, Key::Home, NONE));
    assert!(key(&mut buf, &mut at, Key::Left, NONE));
    assert_eq!(at, 0, "and left from the start stays at the start");
    assert!(key(&mut buf, &mut at, Key::Backspace, NONE));
    assert_eq!(buf, "abc", "nothing behind the caret to take");
}
