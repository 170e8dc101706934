use startui::text::{is_whitespace, split_words};
use startui::ui::{clock_text, feed_labels, song_display, system_summary, uptime_text, wrap_text};
use startui::rss::RssItem;

fn line_fits(line: &str, max_width: usize) -> bool {
    line.len() <= max_width || !line.chars().any(|c| c.is_whitespace())
}

#[test]
fn whitespace_matches_std_for_every_char() {
    for u in 0u32..0x11_0000 {
        if let Some(c) = char::from_u32(u) {
            assert_eq!(is_whitespace(c), c.is_whitespace(), "char {:#x}", u);
        }
    }
}

#[test]
fn split_words_matches_split_whitespace() {
    let samples = [
        "",
        "   ",
        "one",
        "  two  words ",
        "tab\tand\nnewline\r\nmix",
        "ideographic\u{3000}space and\u{a0}nbsp",
        "é ü  ß",
    ];
    for s in samples {
        let expected: Vec<String> = s.split_whitespace().map(|w| w.to_string()).collect();
        assert_eq!(split_words(s), expected, "{:?}", s);
    }
}

#[test]
fn wrap_text_breaks_before_overflowing_word() {
    assert_eq!(wrap_text("hello world foo", 11), "hello world\nfoo");
}

#[test]
fn wrap_text_empty_and_blank() {
    assert_eq!(wrap_text("", 10), "");
    assert_eq!(wrap_text("   \t ", 10), "");
    assert_eq!(wrap_text("  a  ", 10), "a");
}

#[test]
fn wrap_text_zero_width_puts_each_word_on_its_own_line() {
    assert_eq!(wrap_text("a b", 0), "\na\nb");
}

#[test]
fn wrap_text_long_word_stands_alone() {
    assert_eq!(wrap_text("abcdefghij xy", 5), "\nabcdefghij\nxy");
    assert_eq!(wrap_text("xy abcdefghij", 5), "xy\nabcdefghij");
}

#[test]
fn wrap_text_counts_bytes() {
    // 'é' is two bytes long in UTF-8.
    assert_eq!(wrap_text("é é", 4), "é\né");
    assert_eq!(wrap_text("é é", 5), "é é");
}

#[test]
fn wrap_text_collapses_whitespace() {
    assert_eq!(wrap_text("a\tb\u{3000}c\n\nd", 100), "a b c d");
}

#[test]
fn wrap_text_keeps_words() {
    let samples = [
        "Rust 1.90 released with many new features for everyone",
        "  a  bb   ccc dddd eeeee ffffff ",
        "supercalifragilisticexpialidocious is long",
    ];
    for s in samples {
        for w in 0..30 {
            let out = wrap_text(s, w);
            let a: Vec<&str> = out.split_whitespace().collect();
            let b: Vec<&str> = s.split_whitespace().collect();
            assert_eq!(a, b);
        }
    }
}

#[test]
fn wrap_text_lines_fit() {
    let s = "Show HN: A terminal start page with feeds, music and system stats";
    for w in 0..40 {
        let out = wrap_text(s, w);
        for line in out.split('\n') {
            assert!(line_fits(line, w), "width {} line {:?}", w, line);
        }
    }
}

#[test]
fn song_display_short_title_is_shown_whole() {
    assert_eq!(song_display("abc", 0, 10), "abc");
    assert_eq!(song_display("abc", 57, 7), "abc");
}

#[test]
fn song_display_scrolls_long_title() {
    // inner width 9 - 4 = 5; loop is "abcdefgh  |  " (13 characters)
    assert_eq!(song_display("abcdefgh", 0, 9), "abcde");
    assert_eq!(song_display("abcdefgh", 6, 9), "gh  |");
    assert_eq!(song_display("abcdefgh", 12, 9), " abcd");
    assert_eq!(song_display("abcdefgh", 13, 9), "abcde");
    assert_eq!(song_display("abcdefgh", 13 * 7 + 6, 9), "gh  |");
}

#[test]
fn song_display_narrow_box_shows_nothing_of_long_title() {
    assert_eq!(song_display("abc", 3, 2), "");
    assert_eq!(song_display("abc", 3, 4), "");
}

#[test]
fn song_display_width_matches_box() {
    for offset in 0..40 {
        let shown = song_display("Never Gonna Give You Up - Rick Astley", offset, 14);
        assert_eq!(shown.chars().count(), 10);
    }
}

#[test]
fn song_display_counts_characters_not_bytes() {
    assert_eq!(song_display("ééééé", 0, 9), "ééééé");
    assert_eq!(song_display("éééééé", 1, 9), "ééééé");
}

#[test]
fn feed_labels_wrap_each_title() {
    let items = vec![
        RssItem { title: "hello world foo".to_string(), link: "a".to_string() },
        RssItem { title: "x".to_string(), link: String::new() },
    ];
    assert_eq!(feed_labels(&items, 15), vec!["hello world\nfoo\n".to_string(), "x\n".to_string()]);
    assert_eq!(feed_labels(&items, 3), vec!["\nhello\nworld\nfoo\n".to_string(), "\nx\n".to_string()]);
    assert!(feed_labels(&Vec::new(), 15).is_empty());
}

#[test]
fn uptime_text_hours_and_minutes() {
    assert_eq!(uptime_text(0), "0h 0m");
    assert_eq!(uptime_text(59), "0h 0m");
    assert_eq!(uptime_text(3725), "1h 2m");
    assert_eq!(uptime_text(86399), "23h 59m");
    assert_eq!(uptime_text(360_000), "100h 0m");
    assert_eq!(uptime_text(u64::MAX), format!("{}h {}m", u64::MAX / 3600, (u64::MAX % 3600) / 60));
}

#[test]
fn system_summary_uses_fallbacks() {
    let rows = system_summary(None, None, None, 7260);
    let expected = vec![
        ("OS:      ".to_string(), "Linux".to_string()),
        ("Kernel:  ".to_string(), "Unknown".to_string()),
        ("Host:    ".to_string(), "localhost".to_string()),
        ("Uptime:  ".to_string(), "2h 1m".to_string()),
    ];
    assert_eq!(rows, expected);
}

#[test]
fn system_summary_uses_given_values() {
    let rows = system_summary(
        Some("Arch Linux".to_string()),
        Some("6.9.1".to_string()),
        Some("box".to_string()),
        60,
    );
    assert_eq!(rows[0].1, "Arch Linux");
    assert_eq!(rows[1].1, "6.9.1");
    assert_eq!(rows[2].1, "box");
    assert_eq!(rows[3].1, "0h 1m");
}

#[test]
fn clock_text_shows_date_and_time() {
    assert_eq!(clock_text(0, 0), Some("Thursday, Jan 01\n\n12:00:00 AM".to_string()));
    assert_eq!(clock_text(1_700_000_000, 3600), Some("Tuesday, Nov 14\n\n11:13:20 PM".to_string()));
    assert_eq!(clock_text(1_700_000_000, -8 * 3600), Some("Tuesday, Nov 14\n\n02:13:20 PM".to_string()));
}

#[test]
fn clock_text_out_of_range() {
    assert_eq!(clock_text(0, 100_000), None);
    assert_eq!(clock_text(i64::MAX, 0), None);
    assert_eq!(clock_text(0, 86_400), None);
    assert_eq!(clock_text(0, -86_400), None);
    assert!(clock_text(0, 86_399).is_some());
    assert!(clock_text(0, -86_399).is_some());
    assert!(clock_text(8_210_266_876_799, 0).is_some());
    assert_eq!(clock_text(8_210_266_876_800, 0), None);
    assert!(clock_text(-8_334_601_228_800, 0).is_some());
    assert_eq!(clock_text(-8_334_601_228_801, 0), None);
    assert!(clock_text(8_210_266_876_799, 86_399).is_some());
    assert!(clock_text(-8_334_601_228_800, -86_399).is_some());
}

#[test]
fn wrap_text_twice_is_wrap_text_once() {
    let s = "a bb ccc dddd eeeee ffffff ggggggg";
    for w in 0..20 {
        let once = wrap_text(s, w);
        assert_eq!(wrap_text(&once, w), once);
    }
}

fn first_word(line: &str) -> &str {
    line.split(' ').next().unwrap()
}

#[test]
fn wrap_text_is_greedy() {
    let s = "the quick brown fox jumps over the lazy dog again and again";
    for w in 0..40 {
        let out = wrap_text(s, w);
        let lines: Vec<&str> = out.split('\n').collect();
        for i in 0..lines.len().saturating_sub(1) {
            assert!(lines[i].len() + 1 + first_word(lines[i + 1]).len() > w, "width {} out {:?}", w, out);
        }
    }
}

#[test]
fn wrap_text_layout() {
    let s = " lorem\tipsum  dolor\nsit amet ";
    for w in 0..20 {
        let out = wrap_text(s, w);
        let chars: Vec<char> = out.chars().collect();
        for (k, c) in chars.iter().enumerate() {
            if c.is_whitespace() {
                assert!(*c == ' ' || *c == '\n');
                assert!(k + 1 < chars.len() && !chars[k + 1].is_whitespace());
                if k == 0 {
                    assert_eq!(*c, '\n');
                } else {
                    assert!(!chars[k - 1].is_whitespace());
                }
            }
        }
    }
    assert_eq!(wrap_text(" \t\n", 3), "");
}

#[test]
fn wrap_text_short_words_fit() {
    let s = "ab cde fg hij k";
    for w in 4..20 {
        let out = wrap_text(s, w);
        assert!(!out.starts_with('\n'));
        for line in out.split('\n') {
            assert!(line.len() <= w);
        }
    }
}
