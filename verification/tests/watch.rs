//! What a watch reports and what its reply surface shows.
use chrono::{DateTime, TimeZone, Utc};
use lazykatok::time::Timestamp;
use lazykatok::types::RawMessage;
use lazykatok::watch::{
    chat_count, format_human_message_line, parse_reply_command, wrap_display_line, ChatEntry,
    ReplyCommand, ReplyFrame, ReplyUiState, RowStyle, ScrollDelta, WatchEvent,
    WatchMessageChange, WatchSnapshot, REPLY_HISTORY_LIMIT,
};
use lazykatok::width::char_width;
use unicode_width::UnicodeWidthStr;

fn instant(time: DateTime<Utc>) -> Timestamp {
    Timestamp::from_unix(time.timestamp(), time.timestamp_subsec_nanos()).expect("instant")
}

fn message(chat_id: &str, message_id: &str, seconds: i64, text: &str) -> RawMessage {
    RawMessage {
        account_hash: "acct-synthetic".to_string(),
        chat_id: chat_id.to_string(),
        chat_name: format!("Synthetic {chat_id}"),
        chat_type: "direct".to_string(),
        message_id: message_id.to_string(),
        sender_id: "sender-1".to_string(),
        sender_nickname: "Tester".to_string(),
        timestamp: Timestamp::from_unix(seconds, 0).expect("timestamp"),
        text: text.to_string(),
        message_type: "text".to_string(),
        reply_to_message_id: None,
    }
}

fn message_ids(events: &[WatchEvent]) -> Vec<String> {
    events
        .iter()
        .filter_map(|event| match event {
            WatchEvent::Message { message, .. } => Some(message.message_id.clone()),
            WatchEvent::State { .. } => None,
        })
        .collect()
}

#[test]
fn first_snapshot_is_quiet_unless_replay_is_requested() {
    let mut snapshot = WatchSnapshot::default();
    let messages = vec![message("chat-a", "a-1", 1, "one")];

    assert!(snapshot.diff(&messages, 1, false, None).is_empty());

    let mut replay = WatchSnapshot::default();
    let events = replay.diff(&messages, 1, true, None);
    assert_eq!(events.len(), 1);
    assert!(matches!(
        events[0],
        WatchEvent::Message {
            change: WatchMessageChange::Existing,
            ..
        }
    ));
}

#[test]
fn later_snapshots_emit_inserted_and_updated_messages_in_send_order() {
    let mut snapshot = WatchSnapshot::default();
    let first = vec![
        message("chat-a", "a-1", 20, "seed"),
        message("chat-b", "b-1", 10, "seed"),
    ];
    snapshot.diff(&first, 1, false, None);

    let mut edited = first.clone();
    edited[0].text = "edited".to_string();
    edited.push(message("chat-a", "a-2", 30, "new"));

    let events = snapshot.diff(&edited, 2, false, None);
    assert_eq!(message_ids(&events), ["a-1", "a-2"]);
    assert!(matches!(
        events[0],
        WatchEvent::Message {
            change: WatchMessageChange::Updated,
            ..
        }
    ));
    assert!(matches!(
        events[1],
        WatchEvent::Message {
            change: WatchMessageChange::Inserted,
            ..
        }
    ));
}

#[test]
fn chat_filter_limits_emitted_messages_without_forgetting_snapshot_state() {
    let mut snapshot = WatchSnapshot::default();
    let first = vec![
        message("chat-a", "a-1", 1, "seed"),
        message("chat-b", "b-1", 2, "seed"),
    ];
    snapshot.diff(&first, 1, false, Some("chat-a"));

    let mut second = first.clone();
    second.push(message("chat-a", "a-2", 3, "visible"));
    second.push(message("chat-b", "b-2", 4, "hidden"));

    let events = snapshot.diff(&second, 2, false, Some("chat-a"));
    assert_eq!(message_ids(&events), ["a-2"]);
    assert_eq!(snapshot.seen_count(), 4);
    assert_eq!(chat_count(&second), 2);
}

#[test]
fn human_message_lines_are_readable_and_single_line() {
    let mut item = message("chat-a", "a-1", 1, "hello\nthere");
    item.chat_name = "Synthetic\nRoom".to_string();
    item.sender_nickname = "Tester One".to_string();

    assert_eq!(
        format_human_message_line(WatchMessageChange::Existing, &item),
        "[1970-01-01 00:00:01 UTC] Synthetic Room / Tester One: hello there"
    );

    item.text.clear();
    item.message_type = "photo".to_string();
    assert_eq!(
        format_human_message_line(WatchMessageChange::Updated, &item),
        "[1970-01-01 00:00:01 UTC] Synthetic Room / Tester One (updated): <photo>"
    );
}

#[test]
fn human_message_lines_remove_terminal_escape_and_control_characters() {
    let mut item = message(
        "chat-a",
        "a-1",
        1,
        "safe\u{1b}]0;owned\u{7} body\r\nnext\u{009b}2J",
    );
    item.chat_name = "Room\u{1b}[2J".to_string();
    item.sender_nickname = "Tester\tName\u{7}".to_string();

    let rendered = format_human_message_line(WatchMessageChange::Inserted, &item);

    assert_eq!(
        rendered,
        "[1970-01-01 00:00:01 UTC] Room [2J / Tester Name: safe ]0;owned body next 2J"
    );
    assert!(!rendered.chars().any(char::is_control));
}

fn chat_at(day: u32, minute: u32, sender: &str, text: &str) -> ChatEntry {
    ChatEntry {
        timestamp: instant(
            Utc.with_ymd_and_hms(2026, 9, day, 12, minute, 0)
                .single()
                .expect("synthetic timestamp"),
        ),
        sender: sender.to_string(),
        text: text.to_string(),
    }
}

fn texts(frame: &ReplyFrame) -> Vec<&str> {
    frame
        .conversation
        .iter()
        .map(|row| row.text.as_str())
        .collect()
}

#[test]
fn reply_ui_groups_only_adjacent_same_sender_messages_within_five_minutes() {
    let mut ui = ReplyUiState::default();
    ui.push_chat(chat_at(2, 0, "Alice", "one"));
    ui.push_chat(chat_at(2, 4, "Alice", "two"));
    ui.push_chat(chat_at(2, 5, "민준", "three"));
    ui.push_chat(chat_at(2, 11, "민준", "four"));
    ui.push_system("status");
    ui.push_chat(chat_at(2, 12, "민준", "five"));

    let frame = ui.frame(80, 20);
    let rendered = texts(&frame);
    assert!(rendered[1][6..].starts_with("·"));
    assert!(rendered[2][6..].starts_with("민준"));
    assert!(rendered[3][6..].starts_with("민준"));
    assert_eq!(rendered[4], "status");
    assert!(rendered[5][6..].starts_with("민준"));
}

#[test]
fn reply_ui_inserts_local_day_separator_and_breaks_grouping() {
    let mut ui = ReplyUiState::default();
    ui.push_chat(chat_at(2, 59, "Alice", "before"));
    ui.push_chat(chat_at(3, 0, "Alice", "after"));

    let frame = ui.frame(50, 10);
    assert!(frame.conversation[1].text.contains("2026-09-03"));
    assert_eq!(frame.conversation[1].style, RowStyle::Dim);
    assert!(frame.conversation[2].text[6..].starts_with("Alice"));
}

#[test]
fn reply_ui_sender_columns_measure_cjk_and_degrade_at_narrow_widths() {
    let mut wide = ReplyUiState::default();
    wide.push_chat(chat_at(2, 0, "민준", "body"));
    wide.push_chat(chat_at(2, 1, "ABCDEFGHIJKLM", "long"));
    let frame = wide.frame(80, 10);
    let rows = texts(&frame);
    assert_eq!(
        UnicodeWidthStr::width(rows[0].split("body").next().unwrap()),
        19
    );
    assert!(rows[1].contains("ABCDEFGHIJK…"));

    let mut medium = ReplyUiState::default();
    medium.push_chat(chat_at(2, 0, "Alice", "body"));
    let medium_frame = medium.frame(30, 8);
    let medium_row = texts(&medium_frame)[0];
    assert_eq!(
        UnicodeWidthStr::width(medium_row.split("body").next().unwrap()),
        16
    );

    let mut tiny = ReplyUiState::default();
    tiny.push_chat(chat_at(2, 0, "민준", "body"));
    assert!(texts(&tiny.frame(23, 8))[0][6..].starts_with("민준: body"));
}

#[test]
fn wrap_display_line_drops_wide_characters_that_cannot_fit() {
    let rows = wrap_display_line("한a글", 1);

    assert_eq!(rows, ["a"]);
    assert!(rows
        .iter()
        .all(|row| UnicodeWidthStr::width(row.as_str()) <= 1));
    assert!(rows
        .iter()
        .all(|row| row.chars().all(|character| char_width(character) <= 1)));
}

#[test]
fn wrap_display_line_keeps_two_cell_characters_at_width_two() {
    let rows = wrap_display_line("한a글", 2);

    assert_eq!(rows, ["한", "a", "글"]);
    assert!(rows
        .iter()
        .all(|row| UnicodeWidthStr::width(row.as_str()) <= 2));
}

#[test]
fn wrap_display_line_never_exceeds_requested_width() {
    let line = "한a\u{0301}글bc";

    for width in 1..=4 {
        let rows = wrap_display_line(line, width);
        assert!(
            rows.iter()
                .all(|row| UnicodeWidthStr::width(row.as_str()) <= width),
            "width {width}: {rows:?}"
        );
    }
}

#[test]
fn reply_ui_wrap_cache_reuses_history_and_wraps_only_appends() {
    let mut ui = ReplyUiState::default();
    for index in 0..100 {
        ui.push_system(&format!("synthetic line {index}"));
    }
    ui.frame(80, 8);
    let primed = ui.wrap_computations();
    ui.frame(80, 8);
    assert_eq!(ui.wrap_computations(), primed);

    ui.push_system("one appended line");
    ui.frame(80, 8);
    assert_eq!(ui.wrap_computations(), primed + 1);
}

#[test]
fn reply_ui_scroll_tracks_unread_and_clamps_back_to_bottom() {
    let mut ui = ReplyUiState::default();
    for index in 0..10 {
        ui.push_system(&format!("line {index}"));
    }
    ui.frame(40, 8);
    ui.scroll(ScrollDelta::Rows(-2), 8);
    ui.push_chat(chat_at(2, 0, "Alice", "new"));
    ui.push_chat(chat_at(2, 1, "민준", "newer"));
    let frame = ui.frame(40, 8);
    assert!(frame
        .conversation
        .last()
        .unwrap()
        .text
        .contains("2 new messages"));
    assert_eq!(ui.new_since_scroll(), 2);

    ui.scroll(ScrollDelta::Rows(isize::MAX), 8);
    assert_eq!(ui.new_since_scroll(), 0);
    assert!(ui.is_pinned_to_bottom());
    assert!(!texts(&ui.frame(40, 8))
        .iter()
        .any(|row| row.contains("new messages")));
}

#[test]
fn reply_ui_edits_unicode_draft_at_the_cursor() {
    let mut ui = ReplyUiState::default();
    ui.paste("한글");
    ui.left();
    ui.insert('어');
    assert_eq!(ui.draft(), "한어글");
    assert_eq!(ui.cursor(), 2);
    ui.home();
    ui.insert('\u{1112}');
    ui.insert('\u{1161}');
    assert!(ui.draft().starts_with("\u{1112}\u{1161}"));

    ui.end();
    ui.paste("a\r\nb");
    ui.left();
    ui.backspace();
    ui.delete();
    ui.ctrl_w();
    ui.ctrl_u();
    ui.ctrl_k();
    assert_eq!(ui.cursor(), 0);
}

#[test]
fn reply_ui_paste_in_middle_never_submits() {
    let mut ui = ReplyUiState::default();
    ui.paste("ac");
    ui.left();
    ui.paste("한\n글");
    assert_eq!(ui.draft(), "a한 글c");
    assert_eq!(ui.cursor(), 4);
}

#[test]
fn reply_ui_horizontal_input_scroll_keeps_wide_chars_whole_and_cursor_exact() {
    let mut ui = ReplyUiState::default();
    ui.paste("abc한글def");
    let end = ui.input_frame(12);
    assert!(end.input.is_char_boundary(end.input.len()));
    assert!(!end.input.starts_with('글'));
    assert!(end.cursor_column <= 10);

    ui.home();
    ui.right();
    ui.right();
    ui.right();
    ui.right();
    let middle = ui.input_frame(20);
    assert_eq!(middle.cursor_column, 12);
    assert_eq!(middle.input, "reply> abc한글def");
}

#[test]
fn reply_ui_sanitizes_every_history_line_before_rendering() {
    let mut ui = ReplyUiState::default();
    ui.push_line("status\u{1b}]8;;https://example.invalid\u{7}link\u{1b}]8;;\u{7}\nnext");

    let frame = ui.frame(120, 5);
    assert!(frame
        .conversation
        .iter()
        .all(|line| !line.text.chars().any(char::is_control)));
}

#[test]
fn reply_line_parser_sends_direct_lines_and_keeps_slash_commands_explicit() {
    assert_eq!(parse_reply_command(0, ""), ReplyCommand::Quit);
    assert_eq!(parse_reply_command(1, "\n"), ReplyCommand::Empty);
    assert_eq!(parse_reply_command(4, "   \n"), ReplyCommand::Empty);
    assert_eq!(parse_reply_command(6, "/quit\n"), ReplyCommand::Quit);
    assert_eq!(parse_reply_command(6, "/help\n"), ReplyCommand::Help);
    assert_eq!(
        parse_reply_command(25, "/send   확인했습니다  \n"),
        ReplyCommand::Send("확인했습니다".to_string())
    );
    assert_eq!(
        parse_reply_command(25, "/send\t확인했습니다\n"),
        ReplyCommand::Send("확인했습니다".to_string())
    );
    assert_eq!(
        parse_reply_command(25, "/send\u{00a0}확인했습니다\n"),
        ReplyCommand::Send("확인했습니다".to_string())
    );
    assert_eq!(
        parse_reply_command(25, "/send확인했습니다\n"),
        ReplyCommand::Ignored
    );
    assert_eq!(
        parse_reply_command(20, "확인했습니다\n"),
        ReplyCommand::Send("확인했습니다".to_string())
    );
    assert_eq!(
        parse_reply_command(20, "/unknown 확인했습니다\n"),
        ReplyCommand::Ignored
    );
}

#[test]
fn reply_ui_keeps_korean_draft_intact_while_history_arrives() {
    let mut ui = ReplyUiState::default();
    for character in "확인 중".chars() {
        ui.insert(character);
    }
    ui.push_line("[now] Synthetic Room / Tester: 새 메시지");

    let frame = ui.frame(80, 8);
    assert_eq!(texts(&frame), ["[now] Synthetic Room / Tester: 새 메시지"]);
    assert_eq!(frame.input, "reply> 확인 중");

    ui.backspace();
    assert_eq!(ui.take_draft(), "확인 ");
}

#[test]
fn reply_ui_resize_wraps_history_without_changing_draft() {
    let mut ui = ReplyUiState::default();
    ui.push_line("abcdefghij");
    ui.paste("한글\n붙여넣기");

    let narrow = ui.frame(7, 5);
    assert_eq!(texts(&narrow), ["abcdef", "ghij"]);
    assert_eq!(narrow.separator, "──────");
    assert_eq!(narrow.input, "reply>");

    let wide = ui.frame(40, 5);
    assert_eq!(texts(&wide), ["abcdefghij"]);
    assert_eq!(wide.input, "reply> 한글 붙여넣기");
    assert_eq!(ui.take_draft(), "한글 붙여넣기");
}

#[test]
fn reply_ui_history_eviction_retains_cached_rows() {
    let mut ui = ReplyUiState::default();
    for index in 0..REPLY_HISTORY_LIMIT {
        ui.push_system(&format!("cached {index}"));
    }
    ui.frame(80, 8);
    let primed = ui.wrap_computations();
    ui.push_system("cached appended");
    let frame = ui.frame(80, 4);
    assert_eq!(ui.wrap_computations(), primed + 1);
    assert_eq!(texts(&frame), ["cached appended"]);
}

#[test]
fn reply_ui_paste_never_submits_and_history_is_bounded() {
    let mut ui = ReplyUiState::default();
    ui.paste("first\r\nsecond");
    for index in 0..=REPLY_HISTORY_LIMIT {
        ui.push_line(&format!("line {index}"));
    }

    assert_eq!(ui.take_draft(), "first  second");
    let frame = ui.frame(80, 4);
    assert_eq!(texts(&frame), ["line 2000"]);
}

#[test]
fn snapshot_tracks_full_source_changes_even_when_they_are_filtered_from_display() {
    let mut snapshot = WatchSnapshot::default();
    let first = vec![
        message("chat-a", "a-1", 1, "seed"),
        message("chat-b", "b-1", 2, "seed"),
    ];

    snapshot.diff(&first, 1, false, Some("chat-a"));
    assert!(snapshot.source_changed(), "the baseline must be archived");

    snapshot.diff(&first, 2, false, Some("chat-a"));
    assert!(!snapshot.source_changed(), "an identical poll is redundant");

    let mut hidden_change = first.clone();
    hidden_change[1].text = "changed outside display filter".to_string();
    let events = snapshot.diff(&hidden_change, 3, false, Some("chat-a"));
    assert!(events.is_empty(), "the chat filter still controls display");
    assert!(
        snapshot.source_changed(),
        "archive sync must see changes outside the display filter"
    );
}

#[test]
fn a_new_day_is_marked_behind_a_status_line() {
    let mut ui = ReplyUiState::default();
    let at_noon = |day: u32, text: &str| chat_at(day, 0, "Alice", text);
    ui.push_chat_at(at_noon(2, "before"), 0);
    ui.push_system("status");
    ui.push_chat_at(at_noon(3, "after"), 0);
    let frame = ui.frame(50, 10);
    assert_eq!(frame.conversation.len(), 4);
    assert_eq!(frame.conversation[1].text, "status");
    assert!(frame.conversation[2].text.contains("2026-09-03"));
    assert_eq!(frame.conversation[2].style, RowStyle::Dim);
    assert!(frame.conversation[3].text.contains("after"));

    ui.push_system("status");
    ui.push_chat_at(at_noon(3, "again"), 0);
    let rows = ui.frame(50, 20).conversation;
    assert_eq!(rows.len(), 6);
    assert!(rows[5].text[6..].starts_with("Alice"));

    let mut first = ReplyUiState::default();
    first.push_system("status");
    first.push_chat_at(at_noon(3, "only"), 0);
    assert_eq!(first.frame(50, 10).conversation.len(), 2);
}

#[test]
fn a_scrolled_view_stays_when_a_full_history_loses_an_entry() {
    let followers = [
        chat_at(3, 0, "Alice", "a new day"),
        chat_at(2, 1, "Alice", "a continuation"),
        chat_at(2, 1, "Bob", "neither"),
    ];
    for follower in followers {
        let mut ui = ReplyUiState::default();
        ui.push_chat_at(chat_at(2, 0, "Alice", "oldest"), 0);
        ui.push_chat_at(follower, 0);
        for index in 2..REPLY_HISTORY_LIMIT {
            ui.push_system(&format!("line {index}"));
        }
        ui.frame(80, 8);
        ui.scroll(ScrollDelta::Rows(-1_000), 8);
        let before = ui.frame(80, 8).conversation;
        let wraps = ui.wrap_computations();
        ui.push_system("pushes the oldest out");
        ui.push_system("and the next");
        assert_eq!(ui.frame(80, 8).conversation, before);
        assert!(ui.wrap_computations() <= wraps + 3);
        assert!(!ui.is_pinned_to_bottom());
    }
}

#[test]
fn scrolling_comes_back_to_the_bottom() {
    let mut ui = ReplyUiState::default();
    for index in 0..40 {
        ui.push_system(&format!("line {index}"));
    }
    ui.paste("draft");
    ui.frame(40, 8);
    for k in [0, 1, 7, 34, 35, 36, 1_000] {
        ui.scroll(ScrollDelta::Rows(-k), 8);
        ui.scroll(ScrollDelta::Rows(k), 8);
        assert!(ui.is_pinned_to_bottom(), "by {k}");
        assert_eq!(ui.new_since_scroll(), 0);
    }
    ui.scroll(ScrollDelta::Pages(-2), 8);
    assert!(!ui.is_pinned_to_bottom());
    ui.push_chat(chat_at(2, 0, "Alice", "new"));
    assert_eq!(ui.new_since_scroll(), 1);
    ui.scroll(ScrollDelta::Rows(isize::MAX), 8);
    assert!(ui.is_pinned_to_bottom());
    assert_eq!(ui.new_since_scroll(), 0);
    assert_eq!(ui.draft(), "draft");
    assert_eq!(ui.cursor(), 5);
}

#[test]
fn a_chat_filter_hides_the_events_of_other_chats_only() {
    let mut filtered = WatchSnapshot::default();
    filtered.diff(&[message("chat-a", "a-1", 1, "seed")], 1, false, None);
    let mut whole = filtered.clone();
    let poll = [
        message("chat-a", "a-3", 9, "late"),
        message("chat-b", "b-1", 3, "hidden"),
        message("chat-a", "a-1", 1, "edited"),
        message("chat-a", "a-2", 2, "early"),
    ];
    let all = whole.diff(&poll, 2, false, None);
    let shown = filtered.diff(&poll, 2, false, Some("chat-a"));
    assert_eq!(message_ids(&all), ["a-1", "a-2", "b-1", "a-3"]);
    let kept: Vec<WatchEvent> = all
        .into_iter()
        .filter(|event| {
            matches!(event, WatchEvent::Message { message, .. } if message.chat_id == "chat-a")
        })
        .collect();
    assert_eq!(shown, kept);
    assert_eq!(filtered.seen_count(), whole.seen_count());
    assert_eq!(filtered.source_changed(), whole.source_changed());
    assert!(filtered.diff(&poll, 3, false, None).is_empty());
    assert!(!filtered.source_changed());
}

#[test]
fn copies_go_their_own_way() {
    let mut ui = ReplyUiState::default();
    ui.push_chat_at(chat_at(2, 0, "Alice", "one"), 0);
    ui.paste("draft");
    let frame = ui.frame(80, 8);
    let mut copy = ui.clone();
    assert_eq!(copy.frame(80, 8), frame.clone());
    assert_eq!(copy.wrap_computations(), ui.wrap_computations());
    copy.push_system("only here");
    copy.insert('!');
    assert_eq!(ui.frame(80, 8), frame);
    assert_eq!(copy.draft(), "draft!");
    let input = ui.input_frame(80);
    assert_eq!(input.clone(), input);
    let command = ReplyCommand::Send("hi".to_string());
    assert_eq!(command.clone(), command);
}

#[test]
fn printable_ascii_is_one_column_wide() {
    for character in ' '..='~' {
        assert_eq!(char_width(character), 1);
    }
}
