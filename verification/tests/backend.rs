use muxget::backend::{Aria2, Tool, Wget, missing_backends, named, pick};
use muxget::download::Overrides;

#[test]
fn routes_urls_to_the_right_backend() {
    for url in [
        "magnet:?xt=urn:btih:abc",
        "https://example.com/linux.iso",
        "https://example.com/a.tar.gz?token=1",
        "ftp://example.com/file",
    ] {
        assert_eq!(pick(url).unwrap().name(), "aria2c", "{url}");
    }

    for url in [
        "https://youtube.com/watch?v=abc",
        "https://example.com/some/page",
    ] {
        assert_eq!(pick(url).unwrap().name(), "yt-dlp", "{url}");
    }

    assert!(pick("not a url").is_none());
}

#[test]
fn aria2_exit_codes_read_as_english() {
    let aria2 = Aria2;
    assert_eq!(aria2.reason(13), "the file already exists");
    assert_eq!(aria2.reason(9), "not enough disk space");
    // Undocumented codes still say something.
    assert_eq!(aria2.reason(99), "exit 99");
    // yt-dlp documents nothing, so it keeps the default.
    assert_eq!(muxget::ytdlp::YtDlp.reason(1), "exit 1");
}

#[test]
fn a_backend_missing_from_path_is_reported() {
    // One program installed: everything else in the registry is missing.
    assert_eq!(missing_backends(&["aria2c".to_string()]), ["yt-dlp", "wget"]);
    assert_eq!(missing_backends(&[]), ["aria2c", "yt-dlp", "wget"], "nothing on an empty PATH");
}

#[test]
fn a_rule_names_a_backend_and_wget_never_claims_a_url() {
    assert_eq!(named("wget"), Some(Tool::Wget));
    assert_eq!(named("curl"), None);
    assert!(!Tool::Wget.accepts("https://x.com/a.iso"));
    assert!(Tool::Wget.tolerates(8) && !Tool::Wget.tolerates(4) && !Tool::Aria2.tolerates(8));
    assert_eq!(Tool::Wget.reason(8), "the server refused some of it");
    assert_eq!(Tool::Wget.reason(42), "exit 42");
    assert_eq!(Tool::Aria2.reason(-3), "exit -3");
}

#[test]
fn each_backend_gets_its_login_in_its_own_config_format() {
    assert_eq!(Tool::Wget.credentials("me", "pw"), "user = me\npassword = pw\n");
    assert_eq!(Tool::Aria2.credentials("me", "pw"), "http-user=me\nhttp-passwd=pw\n");
    assert_eq!(Tool::Wget.config_flag(), "--config");
    assert_eq!(Tool::Aria2.config_flag(), "--conf-path");
}

#[test]
fn aria2_takes_files_by_extension_whatever_the_case() {
    assert!(Aria2.accepts("https://example.com/A.PDF"));
    assert!(Aria2.accepts("https://example.com/x.torrent"));
    assert!(!Aria2.accepts("https://example.com/page.html"));
    assert!(!Aria2.accepts("https://example.com/a.pdf.html#x.pdf"));
}

#[test]
fn the_command_lines_put_the_items_own_settings_last() {
    let over = Overrides { name: "x.iso".into(), rate: "1M".into(), ..Default::default() };
    assert_eq!(
        Aria2.command("https://e.com/x.iso", "/dl", &over, &["--split=4".to_string()]),
        [
            "--summary-interval=1", "--console-log-level=warn", "--continue=true", "--dir", "/dl",
            "--split=4", "--out", "x.iso", "--max-download-limit=1M", "https://e.com/x.iso"
        ]
    );
    let w = Wget::new();
    assert_eq!(
        w.command("https://e.com/", "/dl", &Overrides::default(), &[], &["--recursive".to_string()]),
        ["--progress=dot:mega", "--directory-prefix", "/dl", "--recursive", "--output-file", "-", "https://e.com/"]
    );
}

#[test]
fn a_crawl_reports_what_it_could_not_fetch_and_its_tally() {
    let mut w = Wget::new();
    w.watch("--2026-07-31 10:00:00--  https://x.com/gone.pdf");
    assert_eq!(w.at, "https://x.com/gone.pdf");
    assert_eq!(
        w.notice("2026-07-31 10:00:00 ERROR 404: Not Found.").as_deref(),
        Some("missing https://x.com/gone.pdf: 404: Not Found.")
    );
    assert_eq!(w.notice("Remote file does not exist -- broken link!!!").as_deref(), Some("missing https://x.com/gone.pdf"));
    assert_eq!(w.notice("Server file no newer than local file -- not retrieving.").as_deref(), Some("1 unchanged files skipped"));
    assert_eq!(
        w.notice("Downloaded: 3 files, 1.2M in 0.5s (2.4 MB/s)").as_deref(),
        Some("crawl finished: 3 files, 1.2M in 0.5s (2.4 MB/s), 1 unchanged files skipped")
    );
    assert_eq!(w.notice("Reusing existing connection."), None);
    assert_eq!(Wget::new().notice("Downloaded: 1 files").as_deref(), Some("crawl finished: 1 files"));
}
