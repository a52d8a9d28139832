use muxget::theme::{add_theme, builtins, hex, named, rgb, Theme};

#[test]
fn builtins_load_and_cycle_wraps() {
    let themes = builtins();
    assert!(themes.iter().any(|t| t.name == "tokyonight"));
    assert!(themes.iter().any(|t| t.name == "catppuccin"));

    let mut t = Theme::default();
    for _ in 0..themes.len() {
        t = t.next(&themes);
    }
    assert_eq!(t, Theme::default());
    assert_eq!(Theme::default().prev(&themes).name, "dracula", "backwards wraps too");
}

#[test]
fn config_parses_hex_and_ignores_junk() {
    let t = Theme::from_config(
        "mine",
        r##"
        # comment
        accent = "#ff8800"
        ok = '#00ff00'
        muted = not-a-color
        bogus = "#000000"
        "##,
    );
    assert_eq!(t.name, "mine");
    assert_eq!(t.accent, rgb(0xff, 0x88, 0x00));
    assert_eq!(t.ok, rgb(0, 0xff, 0));
    assert_eq!(t.muted, Theme::default().muted, "bad color keeps default");
}

#[test]
fn unknown_name_falls_back() {
    let themes = builtins();
    assert_eq!(named(&themes, "nope"), Theme::default());
    assert_eq!(named(&themes, "NORD").name, "nord");
}

#[test]
fn a_color_is_six_hex_digits_after_a_hash() {
    assert_eq!(hex("#7aa2f7"), Some(rgb(0x7a, 0xa2, 0xf7)));
    assert_eq!(hex("#7AA2F7"), Some(rgb(0x7a, 0xa2, 0xf7)));
    assert_eq!(hex("7aa2f7"), None);
    assert_eq!(hex("#7aa2f"), None);
    assert_eq!(hex("#7aa2fg"), None);
}

#[test]
fn a_user_theme_replaces_a_builtin_of_its_name() {
    let mut themes = builtins();
    let mine = Theme::from_config("nord", "accent = \"#010203\"");
    add_theme(&mut themes, mine);
    assert_eq!(themes.len(), 6);
    assert_eq!(named(&themes, "nord").accent, rgb(1, 2, 3));
    add_theme(&mut themes, Theme::from_config("new", ""));
    assert_eq!(themes.len(), 7);
}
