use muxget::args;
use muxget::edit::Key;
use muxget::option::quality;
use muxget::options::Options;

fn panel() -> Options {
    Options {
        backend: "aria2c",
        cursor: 0,
        pairs: Vec::new(),
        editing: None,
        caret: usize::MAX,
    }
}

fn typed(p: &mut Options, keys: &str) {
    for c in keys.chars() {
        p.on_key(Key::Char(c));
    }
}

fn go_to(p: &mut Options, flag: &str) {
    p.cursor = p.specs().iter().position(|s| s.flag == flag).unwrap();
}

#[test]
fn the_quality_choice_cycles_through_its_presets() {
    let presets = quality();
    let mut p = Options { backend: "yt-dlp", cursor: 0, pairs: Vec::new(), editing: None, caret: usize::MAX };
    go_to(&mut p, "--format");

    // Unset lands on the first preset, then walks the list and wraps.
    p.on_key(Key::Char(' '));
    assert_eq!(p.value("--format"), Some(presets[0].value));
    p.on_key(Key::Char(' '));
    assert_eq!(p.value("--format"), Some(presets[1].value));
    assert_eq!(p.preset("--format", &presets).map(|q| q.label), Some("1080p"));
    for _ in 1..presets.len() {
        p.on_key(Key::Char(' '));
    }
    assert_eq!(p.value("--format"), Some(presets[0].value), "the list wraps");

    // A hand-written selector is kept until the user cycles past it.
    p.pairs = vec![("--format".into(), "bestvideo".into())];
    assert!(p.preset("--format", &presets).is_none(), "not one of ours");
    p.on_key(Key::Char('x'));
    assert_eq!(p.value("--format"), None, "x clears it like any other flag");

    // Short forms are what yt-dlp cannot read; the specs use long ones.
    assert!(p.specs().iter().all(|s| !s.flag.starts_with("-f") && s.flag != "-o"));
}

#[test]
fn toggling_a_flag_option_adds_and_removes_it() {
    let mut p = panel();
    go_to(&mut p, "--check-integrity");

    p.on_key(Key::Enter);
    assert!(p.is_set("--check-integrity"));
    p.on_key(Key::Enter);
    assert!(!p.is_set("--check-integrity"), "toggles back off");
}

#[test]
fn editing_a_value_option_writes_then_clears_it() {
    let mut p = panel();
    go_to(&mut p, "--split");

    p.on_key(Key::Enter);
    assert_eq!(p.editing.as_deref(), Some(""), "starts empty when unset");
    typed(&mut p, "16");
    p.on_key(Key::Enter);
    assert_eq!(p.value("--split"), Some("16"));

    // Reopening prefills, and Esc leaves the old value alone.
    p.on_key(Key::Enter);
    assert_eq!(p.editing.as_deref(), Some("16"));
    typed(&mut p, "8");
    p.on_key(Key::Esc);
    assert_eq!(p.value("--split"), Some("16"), "escape discards the edit");

    // An empty value unsets the option instead of writing `--split=`.
    p.on_key(Key::Enter);
    for _ in 0..2 {
        p.on_key(Key::Backspace);
    }
    p.on_key(Key::Enter);
    assert!(!p.is_set("--split"));
}

#[test]
fn unknown_flags_survive_a_round_trip() {
    let mut p = panel();
    p.pairs = args::to_pairs(&args::parse("--split=8 --some-exotic-flag=1 --another"));

    assert_eq!(p.unknown().len(), 2, "flags without a spec are kept aside");

    go_to(&mut p, "--check-integrity");
    p.on_key(Key::Enter);

    let text = args::render(&p.pairs);
    let back = args::parse(&text);
    assert!(back.contains(&"--some-exotic-flag=1".to_string()));
    assert!(back.contains(&"--another".to_string()));
    assert!(back.contains(&"--check-integrity".to_string()));
    assert!(back.contains(&"--split=8".to_string()));
    assert_eq!(p.save(), text, "saving writes what render gives");
}

#[test]
fn navigation_clamps_and_esc_closes() {
    let mut p = panel();
    let last = p.specs().len() - 1;

    p.on_key(Key::Char('k'));
    assert_eq!(p.cursor, 0, "clamps at the top");
    p.on_key(Key::Char('G'));
    assert_eq!(p.cursor, last);
    p.on_key(Key::Char('j'));
    assert_eq!(p.cursor, last, "clamps at the bottom");
    p.on_key(Key::Char('g'));
    assert_eq!(p.cursor, 0);

    assert!(p.on_key(Key::Esc), "esc closes the panel");
}

#[test]
fn x_unsets_the_selected_option() {
    let mut p = panel();
    go_to(&mut p, "--user-agent");
    p.on_key(Key::Enter);
    typed(&mut p, "muxget");
    p.on_key(Key::Enter);
    assert!(p.is_set("--user-agent"));

    p.on_key(Key::Char('x'));
    assert!(!p.is_set("--user-agent"));
}

#[test]
fn a_flag_that_carries_its_value_survives_a_round_trip() {
    let mut p = panel();
    go_to(&mut p, "--seed-time=0");
    p.on_key(Key::Enter);
    assert!(p.is_set("--seed-time=0"));

    // What the file holds, and what it looks like when read back.
    let text = args::render(&p.pairs);
    assert_eq!(text, "--seed-time=0");
    let mut back = Options::open("aria2c", &args::parse(&text));
    assert!(back.is_set("--seed-time=0"), "still ticked after a reload");
    assert!(back.unknown().is_empty(), "and not mistaken for a stray flag");

    // Toggling it off removes it rather than leaving a second copy behind.
    back.cursor = p.cursor;
    back.on_key(Key::Enter);
    assert!(!back.is_set("--seed-time=0"));
    assert!(back.pairs.is_empty());

    // A hand-set value the spec does not pin reads as unticked, not as this.
    let other = Options::open("aria2c", &args::parse("--seed-time=120"));
    assert!(!other.is_set("--seed-time=0"));
}

#[test]
fn a_value_being_typed_in_the_form_keeps_the_keyboard() {
    let mut p = panel();
    go_to(&mut p, "--split");
    p.on_key(Key::Enter);
    // `q` and `j` are letters while a value is open, not commands.
    let cursor = p.cursor;
    assert!(!p.on_key(Key::Char('q')));
    p.on_key(Key::Char('j'));
    assert_eq!(p.cursor, cursor);
    assert_eq!(p.editing.as_deref(), Some("qj"));
}
