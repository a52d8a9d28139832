use muxget::args;

#[test]
fn parses_flags_across_lines_and_skips_comments() {
    let text = "
        # split files and limit speed
        --split=8 --max-download-limit=1M

        --header=Referer:https://example.com
    ";
    assert_eq!(
        args::parse(text),
        [
            "--split=8",
            "--max-download-limit=1M",
            "--header=Referer:https://example.com",
        ]
    );
}

#[test]
fn empty_config_means_no_extra_flags() {
    assert!(args::parse("").is_empty());
    assert!(args::parse("# only a comment\n\n").is_empty());
}

#[test]
fn round_trips_through_the_config_file() {
    // What `save` writes is the trimmed text; `load` parses it back.
    let written = args::saved("  --split=16 --file-allocation=none  ");
    assert_eq!(written, "--split=16 --file-allocation=none");
    assert_eq!(args::parse(&written), ["--split=16", "--file-allocation=none"]);
    assert!(args::path("/home/me/.config/muxget", "aria2c").ends_with("muxget/aria2c.args"));

    // A backend with no file configured contributes nothing.
    assert!(args::parse(&args::saved("")).is_empty());
}

#[test]
fn flags_become_pairs_and_go_back_one_per_line() {
    let tokens = args::parse("--split=8 --continue --header=a=b");
    let pairs = args::to_pairs(&tokens);
    assert_eq!(
        pairs,
        [
            ("--split".to_string(), "8".to_string()),
            ("--continue".to_string(), String::new()),
            ("--header".to_string(), "a=b".to_string()),
        ]
    );
    let text = args::render(&pairs);
    assert_eq!(text, "--split=8\n--continue\n--header=a=b");
    assert_eq!(args::parse(&text), tokens);
}
