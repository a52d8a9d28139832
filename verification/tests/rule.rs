use muxget::rule::{capture, parse, render, Rule};

const RULES: &str = r#"
# Big images go to their own queue and folder.
[[rule]]
extensions = ["iso", "img"]
queue = "large-files"
directory = "~/Downloads/ISOs"

[[rule]]
domains = ["youtube.com", "youtu.be"]
queue = "media"

[[rule]]
min_size = "5G"
queue = "overnight"

# Decides nothing, so it is dropped rather than swallowing its matches.
[[rule]]
extensions = ["zip"]
"#;

fn rules() -> Vec<Rule> {
    parse(RULES)
}

#[test]
fn rules_parse_in_order() {
    let rules = rules();
    assert_eq!(rules.len(), 3);
    assert_eq!(rules[0].extensions, ["iso", "img"]);
    assert_eq!(rules[0].queue.as_deref(), Some("large-files"));
    assert_eq!(rules[0].directory.as_deref(), Some("~/Downloads/ISOs"));
    assert_eq!(rules[1].domains, ["youtube.com", "youtu.be"]);
    assert_eq!(rules[2].min_size, Some(5 * 1024 * 1024 * 1024));
}

#[test]
fn a_url_matches_on_extension_and_domain() {
    let rules = rules();
    assert!(rules[0].matches("https://example.com/a/arch.ISO"));
    assert!(rules[0].matches("https://example.com/disk.img?token=1"));
    assert!(!rules[0].matches("https://example.com/a.zip"));

    assert!(rules[1].matches("https://www.youtube.com/watch?v=abc"));
    assert!(rules[1].matches("https://youtu.be/abc"));
    assert!(!rules[1].matches("https://vimeo.com/1"));

    // A size-only rule matches any url and waits for the total.
    assert!(rules[2].matches("https://example.com/whatever"));
    assert!(!rules[2].wants_size(1));
    assert!(rules[2].wants_size(6 * 1024 * 1024 * 1024));
}

#[test]
fn every_set_condition_has_to_match() {
    let both = parse("[[rule]]\nextensions = [\"iso\"]\ndomains = [\"mirror.net\"]\nqueue = \"q\"\n");
    assert!(both[0].matches("https://mirror.net/a.iso"));
    assert!(!both[0].matches("https://elsewhere.net/a.iso"));
    assert!(!both[0].matches("https://mirror.net/a.zip"));
}

#[test]
fn a_rule_set_field_by_field_round_trips() {
    let mut rule = Rule::default();
    rule.set(0, ".MKV, mp4, ");
    rule.set(4, "video");
    rule.set(6, "aria2c");
    assert_eq!(rule.extensions, ["mkv", "mp4"], "lowercased, dots and blanks dropped");
    assert_eq!(rule.get(0), "mkv, mp4");
    let text = render(&[rule.clone()]);
    assert_eq!(parse(&text), [rule.clone()]);

    let (what, to) = rule.summary();
    assert_eq!(what, "mkv, mp4");
    assert_eq!(to, "queue video · aria2c");

    // An empty value takes a field back off.
    rule.set(4, "  ");
    assert_eq!(rule.queue, None);
}

#[test]
fn a_size_field_reads_and_writes_as_a_size() {
    let mut rule = Rule::default();
    rule.set(3, "1.5GiB");
    assert_eq!(rule.min_size, Some(3 * 512 * 1024 * 1024));
    assert_eq!(rule.get(3), "1.5GiB");
    assert_eq!(rule.summary().0, "over 1.5GiB");
}

#[test]
fn a_pattern_captures_what_its_stars_cover() {
    // The case that asked for this: one rule, a directory per channel.
    let caught = capture("youtube.com/@*", "https://youtube.com/@Fireship").unwrap();
    assert_eq!(caught, ["Fireship"]);
    // A star stops at the separator, so the rest of the url is not swallowed.
    let caught = capture("youtube.com/@*", "https://youtube.com/@Fireship/videos").unwrap();
    assert_eq!(caught, ["Fireship"]);
    // Case is ignored while matching and kept in what comes back.
    assert_eq!(capture("YOUTUBE.COM/@*", "https://youtube.com/@MIT").unwrap(), ["MIT"]);

    // Several stars are numbered left to right.
    let caught = capture("://*/*/releases/", "https://gh.io/rust-lang/releases/1.0").unwrap();
    assert_eq!(caught, ["gh.io", "rust-lang"]);

    // A pattern that is not in the url matches nothing.
    assert!(capture("youtube.com/@*", "https://vimeo.com/12345").is_none());
    // Neither does one whose star would have to cross a separator.
    assert!(capture("example.com/*.iso", "https://example.com/a/b.iso").is_none());
}

#[test]
fn a_capture_fills_the_destination_in() {
    let mut rule = Rule::default();
    rule.set(2, "youtube.com/@*");
    rule.set(5, "/home/mani/yt/$1");
    rule.set(4, "$1");

    let url = "https://youtube.com/@Fireship/videos";
    assert!(rule.matches(url), "a rule may be nothing but a pattern");
    let caught = rule.captures(url).unwrap();
    assert_eq!(rule.fill(&rule.get(5), &caught).unwrap(), "/home/mani/yt/Fireship");
    assert_eq!(rule.fill(&rule.get(4), &caught).unwrap(), "Fireship", "queues take one too");

    // A `$1` the pattern cannot fill is refused rather than taken literally —
    // it would otherwise become a directory named `$1`.
    let mut half = Rule::default();
    half.set(1, "youtube.com");
    half.set(5, "/home/mani/yt/$1");
    assert!(half.matches(url), "the rule still applies");
    assert_eq!(half.fill("/home/mani/yt/$1", &half.captures(url).unwrap()), None);
    // And so is a $2 when the pattern has only one star.
    assert_eq!(rule.fill("/home/mani/yt/$1/$2", &caught), None);

    assert!(!rule.matches("https://youtube.com/watch?v=abc"), "no channel, no match");
    // And the rule survives the file.
    assert_eq!(parse(&render(&[rule.clone()])), [rule]);
}

#[test]
fn a_pattern_without_a_star_is_a_plain_substring_and_dollars_stay_when_not_numbers() {
    assert_eq!(capture("Example.COM/a", "https://example.com/a/b"), Some(vec![]));
    assert_eq!(capture("example.com/z", "https://example.com/a/b"), None);
    // A star covers at least one character.
    assert_eq!(capture("example.com/*", "https://example.com/"), None);
    // A star followed by text stops where that text first follows.
    assert_eq!(capture("/*.tar", "https://x.org/a.b.tar.gz").unwrap(), ["a.b"]);
    let rule = Rule::default();
    let caught = vec!["x".to_string()];
    assert_eq!(rule.fill("$1-$a-$0-$", &caught).unwrap(), "x-$a-$0-$");
    assert_eq!(rule.fill("$1$1", &caught).unwrap(), "xx");
}

#[test]
fn a_pattern_shows_in_the_summary_and_its_row_in_the_panel() {
    let mut rule = Rule::default();
    rule.set(1, "example.com");
    rule.set(2, "example.com/*/");
    rule.set(5, "/srv/$1");
    assert_eq!(rule.get(2), "example.com/*/");
    assert_eq!(rule.summary(), ("example.com + example.com/*/".to_string(), "/srv/$1".to_string()));
}
