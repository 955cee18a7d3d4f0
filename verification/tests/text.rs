//! Texts, numbers, columns and times, held against std and the crates that they come from.
use chrono::{DateTime, FixedOffset, Local, Offset, SecondsFormat, TimeZone, Utc};
use lazykatok::digits::{
    char_count, decimal_text, hex_text, parse_size, size_text, utf16_units, utf8_width,
};
use lazykatok::layout::sender_palette;
use lazykatok::order::sorted_set;
use lazykatok::text::{
    char_is_control, char_is_white, is_blank, same_text, text_at_most, trim,
};
use lazykatok::time::Timestamp;
use lazykatok::watch::{sanitize_terminal_text, wrap_display_line};
use lazykatok::width::{
    centered_rule, char_width, chars_width, display_column_byte_index, display_prefix,
    pad_display, repeat_char,
};
use unicode_width::{UnicodeWidthChar, UnicodeWidthStr};

#[test]
fn characters_are_classified_as_std_does() {
    for c in char::MIN..=char::MAX {
        assert_eq!(char_is_control(c), c.is_control(), "{c:?}");
        assert_eq!(char_is_white(c), c.is_whitespace(), "{c:?}");
        assert_eq!(utf8_width(c), c.len_utf8(), "{c:?}");
    }
}

#[test]
fn characters_are_as_wide_as_the_tables_say() {
    for c in char::MIN..=char::MAX {
        assert_eq!(char_width(c), UnicodeWidthChar::width(c).unwrap_or(0), "{c:?}");
        assert_eq!(UnicodeWidthChar::width(c).is_none(), char_is_control(c), "{c:?}");
        assert!(char_width(c) <= 3, "{c:?}");
        if (' '..='~').contains(&c) {
            assert_eq!(char_width(c), 1, "{c:?}");
        }
    }
    let ascii: String = (' '..='~').collect();
    assert_eq!(UnicodeWidthStr::width(ascii.as_str()), ascii.len());
    assert_eq!(chars_width(&['한', 'a', '\u{301}', '글']), 5);
}

#[test]
fn texts_are_trimmed_and_ordered_as_std_does() {
    let samples = ["", " ", "\u{3000}a b\u{a0}", "\t\r\n", "x", "한글 ", "\u{200b}x", "a", "ab", "b"];
    for a in samples {
        assert_eq!(trim(a), a.trim());
        assert_eq!(is_blank(a), a.trim().is_empty());
        for b in samples {
            assert_eq!(text_at_most(a, b), a <= b);
            assert_eq!(same_text(a, b), a == b);
        }
    }
    let list: Vec<String> = ["b", "a", "b", "한", "B"].map(String::from).to_vec();
    assert_eq!(sorted_set(&list), ["B", "a", "b", "한"]);
}

#[test]
fn numbers_are_written_and_read_as_std_does() {
    for n in [0u64, 7, 10, 99, 1_000, u64::MAX] {
        assert_eq!(decimal_text(n), n.to_string());
    }
    assert_eq!(size_text(usize::MAX), usize::MAX.to_string());
    for text in [
        "", "0", "007", "+5", "-1", "-0", "+", "5 ", "5a", "18446744073709551615",
        "18446744073709551616", "99999999999999999999999", "٣",
    ] {
        assert_eq!(parse_size(text), text.parse::<usize>().ok(), "{text:?}");
    }
    assert_eq!(hex_text(&[0, 1, 0x7f, 0xab, 0xff]), "00017fabff");
    for text in ["", "abc", "한글", "😀e\u{301}"] {
        assert_eq!(utf16_units(text), text.encode_utf16().count() as u128);
        assert_eq!(char_count(text), text.chars().count());
    }
}

#[test]
fn control_characters_are_taken_out_of_lines() {
    assert_eq!(sanitize_terminal_text("a\u{1b}[2J\u{7}b\t\n c"), "a [2J b c");
    assert_eq!(sanitize_terminal_text("  한  글  "), "한 글");
    assert_eq!(sanitize_terminal_text("\u{9b}\u{7f}"), "");
    let once = sanitize_terminal_text("\u{85}x\u{2028}y\u{0}");
    assert_eq!(once, "x y");
    assert_eq!(sanitize_terminal_text(&once), once);
}

#[test]
fn columns_are_cut_padded_and_ruled() {
    assert_eq!(display_prefix("한글ab", 3), "한");
    assert_eq!(display_prefix("한글ab", 5), "한글a");
    assert_eq!(display_column_byte_index("한글ab", 3), 3);
    assert_eq!(display_column_byte_index("한글ab", 9), 8);
    assert_eq!(pad_display("한", 4).len(), "한".len() + 2);
    assert_eq!(repeat_char('─', 3), "───");
    let rule = centered_rule("2026-09-03", 30);
    assert!(rule.contains(" 2026-09-03 "));
    assert_eq!(UnicodeWidthStr::width(rule.as_str()), 30);
}

#[test]
fn wrapping_keeps_the_text_that_fits() {
    let line = "한a글 bc";
    for width in 2..8 {
        assert_eq!(wrap_display_line(line, width).concat(), line);
    }
    assert_eq!(wrap_display_line("", 5), [""]);
    assert_eq!(wrap_display_line("abcd", 3), ["abc", "d"]);
}

#[test]
fn senders_keep_their_colour_in_any_case() {
    assert_eq!(sender_palette(""), 5);
    assert_eq!(sender_palette("alice"), 7);
    assert_eq!(sender_palette("ALICE"), 7);
    assert_eq!(sender_palette("민준"), 3);
}

fn sample_times() -> Vec<(i64, u32)> {
    vec![
        (0, 0),
        (-1, 999_999_999),
        (1_767_225_600, 123_456_789),
        (59, 1_999_999_999),
        (-8_334_601_228_800, 0),
        (8_210_266_876_799, 999_999_999),
    ]
}

#[test]
fn instants_are_those_of_chrono() {
    for (seconds, nanos) in [
        (-8_334_601_228_801, 0),
        (8_210_266_876_800, 0),
        (i64::MAX, 0),
        (i64::MIN, 0),
        (0, 1_000_000_000),
        (59, 2_000_000_000),
        (60, 1_500_000_000),
        (-1, 1_500_000_000),
        (8_210_266_876_799, 1_000_000_000),
    ]
    .into_iter()
    .chain(sample_times())
    {
        let ours = Timestamp::from_unix(seconds, nanos);
        let theirs = DateTime::from_timestamp(seconds, nanos);
        assert_eq!(ours.is_some(), theirs.is_some(), "{seconds} {nanos}");
        if let (Some(ours), Some(theirs)) = (ours, theirs) {
            assert_eq!(ours.timestamp(), theirs.timestamp());
            assert_eq!(ours.timestamp_subsec_nanos(), theirs.timestamp_subsec_nanos());
        }
    }
    for millis in [
        0,
        -1,
        1_767_225_600_123,
        -8_334_601_228_800_000,
        -8_334_601_228_800_001,
        8_210_266_876_799_999,
        8_210_266_876_800_000,
        i64::MAX,
        i64::MIN,
    ] {
        let ours = Timestamp::from_unix_millis(millis);
        let theirs = DateTime::from_timestamp_millis(millis);
        assert_eq!(
            ours.map(|t| (t.timestamp(), t.timestamp_subsec_nanos())),
            theirs.map(|t| (t.timestamp(), t.timestamp_subsec_nanos()))
        );
    }
}

#[test]
fn instants_are_written_as_chrono_does() {
    for (seconds, nanos) in sample_times() {
        let ours = Timestamp::from_unix(seconds, nanos).unwrap();
        let theirs = DateTime::from_timestamp(seconds, nanos).unwrap();
        assert_eq!(ours.to_rfc3339(), theirs.to_rfc3339());
        assert_eq!(
            ours.to_rfc3339_seconds(),
            theirs.to_rfc3339_opts(SecondsFormat::Secs, true)
        );
    }
    for (a, x) in sample_times() {
        for (b, y) in sample_times() {
            let later = Timestamp::from_unix(a, x).unwrap();
            let earlier = Timestamp::from_unix(b, y).unwrap();
            let theirs = DateTime::from_timestamp(a, x).unwrap()
                - DateTime::<Utc>::from_timestamp(b, y).unwrap();
            assert_eq!(later.seconds_since(&earlier), theirs.num_seconds());
            assert_eq!(earlier.is_at_or_before(&later), (b, y) <= (a, x));
        }
    }
}

#[test]
fn wall_clocks_show_what_chrono_shows() {
    for (seconds, nanos) in [(0, 0), (1_767_225_600, 5), (-86_401, 0), (1_790_000_059, 0)] {
        let ours = Timestamp::from_unix(seconds, nanos).unwrap();
        let theirs = DateTime::from_timestamp(seconds, nanos).unwrap();
        for offset in [0, 9 * 3600, -11 * 3600 - 1800, 86_399, -86_399] {
            let local = theirs.with_timezone(&FixedOffset::east_opt(offset).unwrap());
            assert_eq!(ours.local_date(offset), local.format("%Y-%m-%d").to_string());
            assert_eq!(ours.local_clock(offset), local.format("%H:%M").to_string());
        }
        let offset = ours.local_offset();
        let machine = Local.offset_from_utc_datetime(&theirs.naive_utc()).fix();
        assert_eq!(offset, machine.local_minus_utc());
        assert_eq!(
            ours.local_date(offset),
            theirs.with_timezone(&Local).format("%Y-%m-%d").to_string()
        );
    }
    assert_eq!(Timestamp::from_unix(-1, 0).unwrap().local_day(0), -1);
    assert_eq!(Timestamp::from_unix(-1, 0).unwrap().local_day(1), 0);
    assert_eq!(Timestamp::from_unix(86_400, 0).unwrap().local_day(-1), 0);
}

#[test]
fn wall_clocks_work_at_the_ends_of_time() {
    for (seconds, nanos) in sample_times() {
        let time = Timestamp::from_unix(seconds, nanos).unwrap();
        for offset in [86_399, -86_399] {
            assert!(!time.local_date(offset).is_empty());
            assert_eq!(time.local_clock(offset).len(), 5);
        }
    }
}

#[test]
fn written_times_sort_as_the_times_do() {
    let mut times = Vec::new();
    for seconds in [
        -62_167_219_200,
        -1,
        0,
        59,
        60,
        3_599,
        3_600,
        86_399,
        86_400,
        1_767_225_600,
        1_767_225_601,
        253_402_300_799,
    ] {
        for nanos in [0, 1, 999, 1_000, 499_999_999, 500_000_000, 500_123_000, 999_999_999] {
            times.push(Timestamp::from_unix(seconds, nanos).unwrap());
        }
    }
    times.push(Timestamp::from_unix(59, 1_000_000_000).unwrap());
    times.push(Timestamp::from_unix(59, 1_999_999_999).unwrap());
    for a in &times {
        for b in &times {
            assert_eq!(
                text_at_most(&a.to_rfc3339(), &b.to_rfc3339()),
                a.is_at_or_before(b),
                "{a:?} {b:?}"
            );
        }
    }
}
