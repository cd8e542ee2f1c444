use yek::{last_commit_time, get_recent_commit_times, read_timestamp};

#[test]
fn timestamp_lines() {
    assert_eq!(read_timestamp(b"0"), Some(0));
    assert_eq!(read_timestamp(b"1700000000"), Some(1_700_000_000));
    assert_eq!(read_timestamp(b"+42"), Some(42));
    assert_eq!(read_timestamp(b"007"), Some(7));
    assert_eq!(read_timestamp(b"18446744073709551615"), Some(u64::MAX));
    assert_eq!(read_timestamp(b"18446744073709551616"), None);
    assert_eq!(read_timestamp(b"99999999999999999999999"), None);
    assert_eq!(read_timestamp(b""), None);
    assert_eq!(read_timestamp(b"+"), None);
    assert_eq!(read_timestamp(b"-1"), None);
    assert_eq!(read_timestamp(b"++1"), None);
    assert_eq!(read_timestamp(b" 1"), None);
    assert_eq!(read_timestamp(b"1 "), None);
    assert_eq!(read_timestamp(b"12a"), None);
    assert_eq!(read_timestamp(b"src/1"), None);
}

#[test]
fn timestamp_agrees_with_parse() {
    for text in ["5", "+5", "-5", "", "+", "05", "1x", "18446744073709551615", "18446744073709551616", "٣"] {
        assert_eq!(read_timestamp(text.as_bytes()), text.parse::<u64>().ok(), "{}", text);
    }
}

#[test]
fn first_commit_in_the_log_wins() {
    let log = b"300\nsrc/a.rs\nsrc/b.rs\n\n200\nsrc/b.rs\nsrc/c.rs\n\n100\nsrc/a.rs\n";
    let times = get_recent_commit_times(log);
    assert_eq!(last_commit_time(Some(&times), "src/a.rs"), Some(300));
    assert_eq!(last_commit_time(Some(&times), "src/b.rs"), Some(300));
    assert_eq!(last_commit_time(Some(&times), "src/c.rs"), Some(200));
    assert_eq!(last_commit_time(Some(&times), "src/d.rs"), None);
    assert_eq!(last_commit_time(Some(&times), ""), None);
    assert_eq!(times.len(), 3);
}

#[test]
fn log_lines_are_trimmed_and_line_endings_dropped() {
    let log = b"50\r\n  spaced name.txt \r\n\t\r\ntab.txt\t\nlast.txt";
    let times = get_recent_commit_times(log);
    assert_eq!(last_commit_time(Some(&times), "spaced name.txt"), Some(50));
    assert_eq!(last_commit_time(Some(&times), "tab.txt"), Some(50));
    assert_eq!(last_commit_time(Some(&times), "last.txt"), Some(50));
    assert_eq!(times.len(), 3);
}

#[test]
fn paths_before_any_commit_get_time_zero() {
    let times = get_recent_commit_times(b"early.txt\n10\nlate.txt\n");
    assert_eq!(last_commit_time(Some(&times), "early.txt"), Some(0));
    assert_eq!(last_commit_time(Some(&times), "late.txt"), Some(10));
}

#[test]
fn number_with_white_space_around_it_names_a_path() {
    let times = get_recent_commit_times(b"7\n 123 \n");
    assert_eq!(last_commit_time(Some(&times), "123"), Some(7));
}

#[test]
fn empty_log_gives_no_times() {
    let times = get_recent_commit_times(b"");
    assert_eq!(times.len(), 0);
    assert_eq!(last_commit_time(Some(&times), "a"), None);
    assert_eq!(last_commit_time(None, "a"), None);
}

#[test]
fn paths_outside_ascii_are_found_again() {
    let log = "9\ndocs/größe.md\n文書/読む.txt\n";
    let times = get_recent_commit_times(log.as_bytes());
    assert_eq!(last_commit_time(Some(&times), "docs/größe.md"), Some(9));
    assert_eq!(last_commit_time(Some(&times), "文書/読む.txt"), Some(9));
}
