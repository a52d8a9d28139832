use muxget::utils::days_since_epoch;
use muxget::utils::{civil, day_stamp, days_from_civil, days_of, expand, fill, parse_range, urls_in, MAX_EXPANSION};

#[test]
fn a_pattern_expands_over_its_range() {
    assert_eq!(
        expand("https://x.com/f%03d.iso", "1-3"),
        [
            "https://x.com/f001.iso",
            "https://x.com/f002.iso",
            "https://x.com/f003.iso"
        ]
    );
    assert_eq!(expand("https://x.com/f%d.iso", "9-10").len(), 2);
    // No range, or a broken one, is a single plain url.
    assert_eq!(expand("https://x.com/f.iso", ""), ["https://x.com/f.iso"]);
    assert_eq!(expand("https://x.com/f.iso", "10-1"), ["https://x.com/f.iso"]);
    assert_eq!(expand("https://x.com/f.iso", "a-b"), ["https://x.com/f.iso"]);
}

#[test]
fn a_huge_range_is_capped() {
    assert_eq!(expand("f%d", "1-100000").len(), MAX_EXPANSION as usize);
}

#[test]
fn only_the_number_specs_are_substituted() {
    assert_eq!(fill("a%db", 7), "a7b");
    assert_eq!(fill("a%04db", 7), "a0007b");
    assert_eq!(fill("100%% sure", 7), "100% sure");
    // An unknown spec is left as typed.
    assert_eq!(fill("a%sb", 7), "a%sb");
    assert_eq!(fill("no specs", 7), "no specs");
}

#[test]
fn ranges_are_inclusive_and_non_negative() {
    assert_eq!(parse_range(" 2 - 5 "), Some((2, 5)));
    assert_eq!(parse_range("0-0"), Some((0, 0)));
    assert_eq!(parse_range("-1-5"), None);
    assert_eq!(parse_range("5"), None);
}

#[test]
fn pasted_text_yields_its_urls_once_each_in_order() {
    let text = "grab these:\nhttps://a.com/x.iso\nnope\n  https://a.com/y.iso \nhttps://a.com/x.iso\n";
    assert_eq!(urls_in(text), ["https://a.com/x.iso", "https://a.com/y.iso"]);
    assert!(urls_in("just a note").is_empty(), "no urls in the clipboard");
    assert_eq!(urls_in("magnet:?xt=urn:btih:abc"), ["magnet:?xt=urn:btih:abc"]);
}

#[test]
fn days_and_civil_dates_convert_both_ways() {
    assert_eq!(days_from_civil(1970, 1, 1), 0);
    assert_eq!(days_from_civil(2000, 3, 1), 11017);
    assert_eq!(civil(11017), (2000, 3, 1));
    assert_eq!(civil(-1), (1969, 12, 31));
    assert_eq!(day_stamp(days_from_civil(2024, 2, 29)), "20240229");
    assert_eq!(days_of("20240229"), Some(days_from_civil(2024, 2, 29)));
    assert_eq!(days_of("2024-02-29"), None);
    assert_eq!(days_of("19700101"), Some(0));
    assert_eq!(days_of("20201399"), None, "month 13, day 99 is no date");
    assert_eq!(days_of("20230229"), None, "2023 is no leap year");
    assert_eq!(days_of("19000229"), None, "1900 is no leap year");
    assert_eq!(days_of("20000229"), Some(days_from_civil(2000, 2, 29)));
    assert_eq!(days_of("20200431"), None);
    assert_eq!(days_of("20200100"), None);
}

#[test]
fn a_clock_reading_gives_whole_days_since_the_epoch() {
    assert_eq!(days_since_epoch(0), 0);
    assert_eq!(days_since_epoch(86_399), 0);
    assert_eq!(days_since_epoch(3 * 86_400 + 5), 3);
    assert_eq!(days_since_epoch(1_700_000_000), 19_675);
    // Past `i64::MAX` the reading wraps, and divides towards zero.
    assert_eq!(days_since_epoch(u64::MAX), 0);
    assert_eq!(days_since_epoch(u64::MAX - 86_399), -1);
}

#[test]
fn a_date_comes_back_from_its_day_count() {
    assert_eq!(days_from_civil(1970, 1, 1), 0);
    assert_eq!(days_from_civil(2000, 2, 29), 11016);
    for (y, m, d) in [(2000, 2, 29), (1900, 2, 28), (2400, 2, 29), (1969, 12, 31), (1600, 3, 1), (-4, 2, 29), (9999, 12, 31)] {
        assert_eq!(civil(days_from_civil(y, m, d)), (y, m, d));
    }
}
