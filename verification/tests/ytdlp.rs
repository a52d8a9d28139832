use muxget::ytdlp;
use muxget::download::Overrides;
use muxget::ytdlp::{DateRange, Entry, YtDlp, date, dated_list_command, entry, is_plain_date, list_command};
use muxget::keys::{Field, Pick};
use muxget::ytdlp::Listing;

#[test]
fn recognises_playlist_and_channel_urls() {
    for url in [
        "https://www.youtube.com/playlist?list=PLabc",
        "https://youtube.com/watch?v=abc&list=PLabc",
        "https://www.youtube.com/@somechannel",
        "https://www.youtube.com/channel/UC123/videos",
    ] {
        assert!(ytdlp::is_playlist(url), "{url}");
    }

    for url in [
        "https://youtu.be/abc123",
        "https://youtube.com/watch?v=abc123",
        "https://example.com/video.mp4",
    ] {
        assert!(!ytdlp::is_playlist(url), "{url}");
    }
}

#[test]
fn no_playlist_option_disables_expansion() {
    let url = "https://www.youtube.com/playlist?list=PLabc";
    let none: Vec<String> = muxget::args::parse("");
    assert!(ytdlp::expands_playlist(url, &none));

    let single = muxget::args::parse("--no-playlist");
    assert!(!ytdlp::expands_playlist(url, &single), "user asked for single videos");
}

#[test]
fn a_listed_line_splits_into_url_date_and_title() {

    assert_eq!(
        entry("https://y.com/watch?v=a\t20220802\tSome Title"),
        Some(Entry {
            url: "https://y.com/watch?v=a".into(),
            date: "20220802".into(),
            title: "Some Title".into(),
        })
    );
    // yt-dlp prints NA for what it has no value for; a site with no dates in
    // its index leaves the entry usable without one.
    let none = entry("https://y.com/watch?v=b\tNA\tNo Date").unwrap();
    assert_eq!((none.date.as_str(), none.title.as_str()), ("", "No Date"));
    // An old yt-dlp, or an entry with no title, still gives a usable url.
    assert_eq!(entry("https://y.com/watch?v=c").unwrap().url, "https://y.com/watch?v=c");
    assert_eq!(entry("[youtube:tab] Extracting URL"), None, "log noise is not an entry");
}

#[test]
fn dates_come_with_the_listing_and_only_fall_back_when_they_cannot() {

    // The fast pass: one request for the whole playlist, dates included.
    // `approximate_date` is what puts them in a flat listing at all.
    let fast = format!("{:?}", list_command("https://y.com/playlist?list=x"));
    assert!(fast.contains("--flat-playlist"));
    assert!(fast.contains("approximate_date"), "no dates without it");
    assert!(fast.contains("upload_date"), "and they are printed per entry");

    // Dashes and slashes are for people; yt-dlp wants the digits.
    assert_eq!(date("2020-01-01"), "20200101");
    assert_eq!(date("2023/12/31"), "20231231");
    assert_eq!(date(""), "", "an empty end stays open");
    // Its own shorthand passes through untouched, and is not comparable here.
    assert_eq!(date("now-6months"), "now-6months");
    assert!(is_plain_date("20200101") && !is_plain_date("now-6months") && !is_plain_date("2020"));

    // The slow pass exists for what the fast one cannot answer, and hands the
    // filtering to yt-dlp.
    let both = DateRange { after: date("2020-01-01"), before: date("2023-12-31") };
    let slow = format!("{:?}", dated_list_command(&["https://y.com/playlist?list=x".to_string()], &both));
    assert!(!slow.contains("--flat-playlist"), "exact dates need the full extraction");
    assert!(slow.contains("--dateafter") && slow.contains("20200101"));
    assert!(slow.contains("--datebefore") && slow.contains("20231231"));
    assert!(slow.contains("webpage_url"), "the page, not the media stream");

    // One end alone leaves the other open.
    let from = DateRange { after: date("2020-01-01"), ..Default::default() };
    let slow = format!("{:?}", dated_list_command(&["https://y.com/x".to_string()], &from));
    assert!(slow.contains("--dateafter") && !slow.contains("--datebefore"));

    // Every url in doubt goes in one invocation, not one process each.
    let many = ["https://y.com/a".to_string(), "https://y.com/b".to_string()];
    let slow = format!("{:?}", dated_list_command(&many, &both));
    assert!(slow.contains("y.com/a") && slow.contains("y.com/b"));
}

#[test]
fn a_typed_range_reads_both_ends_and_goes_back_as_typed() {
    let r = DateRange::parse(" 2020-01-01..2023/12/31 ");
    assert_eq!(r.after, "20200101");
    assert_eq!(r.before, "20231231");
    assert_eq!(r.typed(), "20200101..20231231");
    let open = DateRange::parse("now-6months");
    assert_eq!((open.after.as_str(), open.before.as_str()), ("now-6months", ""));
    assert!(DateRange::parse("  ").is_empty());
    assert_eq!(DateRange::parse("").typed(), "");
}

#[test]
fn a_login_file_quotes_what_would_end_the_string() {
    assert_eq!(YtDlp.credentials("me", "a\"b\\c"), "-u \"me\"\n-p \"a\\\"b\\\\c\"\n");
    assert_eq!(YtDlp.config_flag(), "--config-location");
    assert!(YtDlp.accepts("https://x.com/v") && YtDlp.accepts("http://x.com/v"));
    assert!(!YtDlp.accepts("ftp://x.com/v"));
}

#[test]
fn a_download_carries_its_own_settings_after_the_configured_ones() {
    let saved = vec!["--embed-metadata".to_string()];
    let over = Overrides { name: "mine.mkv".into(), rate: "2M".into(), ..Default::default() };
    assert_eq!(
        YtDlp.command("https://y.com/v", "/tmp/dl", &over, &saved),
        [
            "--newline", "--no-color", "--continue", "-P", "/tmp/dl", "--embed-metadata", "-o",
            "mine.mkv", "-r", "2M", "https://y.com/v"
        ]
    );
    let own_dir = Overrides { dir: "/tmp/here".into(), ..Default::default() };
    assert_eq!(YtDlp.command("u", "/tmp/dl", &own_dir, &[])[4], "/tmp/here");
}

fn listed() -> Pick {
    let entries = vec![
        Entry { url: "https://y.t/a".into(), date: "20240105".into(), title: "Rust talk".into() },
        Entry { url: "https://y.t/b".into(), date: "20230101".into(), title: "Cooking".into() },
        Entry { url: "https://y.t/c".into(), date: String::new(), title: "RUST live".into() },
    ];
    Pick {
        listing: Listing { url: "https://y.t/@x".into(), queue: 0, over: Overrides::default(), dates: DateRange::default(), entries },
        picked: vec![0, 1, 2],
        at: 2,
        words: String::new(),
        editing: None,
    }
}

#[test]
fn typing_into_the_picker_filters_and_picks_what_it_shows() {
    let mut p = listed();
    assert!(!p.type_field(Field::Words, "  Rust ", "/home/me"));
    assert_eq!(p.words, "rust");
    assert_eq!(p.shown(), vec![0, 2]);
    assert_eq!(p.picked, vec![0, 2], "what the filter hides is not queued");
    assert_eq!(p.at, 0);

    assert!(!p.type_field(Field::Dir, " ~/Videos ", "/home/me"));
    assert_eq!(p.listing.over.dir, "/home/me/Videos");

    // A date end is answered by listing again.
    assert!(p.type_field(Field::From, "2024-01-01", "/home/me"));
    assert_eq!(p.listing.dates.after, "20240101");
    assert!(p.type_field(Field::To, "today", "/home/me"));
    assert_eq!(p.listing.dates.before, "today");
    assert_eq!(p.shown(), vec![0, 2], "an undated entry is kept");
}
