//! Choosing a chat from a list.
use lazykatok::adapters::ChatSummary;
use lazykatok::selection::{
    choice_line, choice_lines, choose_chat, order_chats_for_selection, SelectionError,
};
use lazykatok::time::Timestamp;

fn instant(iso: &str) -> Timestamp {
    let time = chrono::DateTime::parse_from_rfc3339(iso).expect("parse timestamp");
    Timestamp::from_unix(time.timestamp(), time.timestamp_subsec_nanos()).expect("instant")
}

fn summary(id: &str, name: &str, at: Option<&str>) -> ChatSummary {
    ChatSummary {
        chat_id: id.to_string(),
        chat_name: name.to_string(),
        chat_type: "group".to_string(),
        last_message_at: at.map(instant),
    }
}

#[test]
fn selection_orders_latest_first_and_undated_last() {
    let mut chats = vec![
        summary("chat-none", "Undated", None),
        summary("chat-old", "Older", Some("2026-01-01T09:00:00Z")),
        summary("chat-new", "Newest", Some("2026-01-03T09:00:00Z")),
        summary("chat-mid", "Middle", Some("2026-01-02T09:00:00Z")),
    ];
    order_chats_for_selection(&mut chats);
    let ids: Vec<_> = chats.iter().map(|chat| chat.chat_id.as_str()).collect();
    assert_eq!(ids, ["chat-new", "chat-mid", "chat-old", "chat-none"]);
}

#[test]
fn selection_ties_break_by_name_then_id() {
    let mut chats = vec![
        summary("chat-b", "Same Room", Some("2026-01-01T09:00:00Z")),
        summary("chat-a", "Same Room", Some("2026-01-01T09:00:00Z")),
    ];
    order_chats_for_selection(&mut chats);
    assert_eq!(chats[0].chat_id, "chat-a");
}

#[test]
fn names_are_ordered_by_their_characters() {
    let at = Some("2026-01-01T09:00:00Z");
    let mut chats = vec![
        summary("1", "beta", at),
        summary("2", "Alpha", at),
        summary("3", "ALPHA", at),
    ];
    order_chats_for_selection(&mut chats);
    let ids: Vec<_> = chats.iter().map(|chat| chat.chat_id.as_str()).collect();
    assert_eq!(ids, ["3", "2", "1"]);
}

#[test]
fn a_number_picks_the_chat_that_it_was_shown_with() {
    let mut chats = vec![
        summary("chat-1", "One", Some("2026-01-01T09:00:00Z")),
        summary("chat-2", "Two", Some("2026-01-02T09:00:00Z")),
    ];
    order_chats_for_selection(&mut chats);
    let picked = choose_chat(&chats, "2\n").expect("second chat");
    assert_eq!(picked.chat_id, "chat-1");
    assert_eq!(choose_chat(&chats, "1").expect("newest chat").chat_id, "chat-2");
    let lines = choice_lines(&chats);
    assert_eq!(lines.len(), 2);
    assert_eq!(lines[1], choice_line(1, &chats[0]));
    assert_eq!(lines[0], choice_line(2, &chats[1]));
    assert!(lines[1].contains("Two"));
    assert!(lines[1].contains("chat-2"));
}

#[test]
fn undated_chats_stand_at_the_top_by_name() {
    let mut chats = vec![
        summary("b", "B", None),
        summary("old", "Older", Some("2026-01-01T09:00:00Z")),
        summary("c", "C", None),
        summary("new", "Newest", Some("2026-01-03T09:00:00Z")),
        summary("a", "A", None),
    ];
    order_chats_for_selection(&mut chats);
    assert_eq!(
        choice_lines(&chats),
        [
            "  5. A (group, a)",
            "  4. B (group, b)",
            "  3. C (group, c)",
            "  2. Older (group, old)",
            "  1. Newest (group, new)",
        ]
    );
    for (answer, id) in [("1", "new"), ("2", "old"), ("3", "c"), ("4", "b"), ("5", "a")] {
        assert_eq!(choose_chat(&chats, answer).expect("by number").chat_id, id);
    }
    assert_eq!(choose_chat(&chats, "b").expect("by id").chat_name, "B");
}

#[test]
fn a_chat_can_be_picked_by_its_id() {
    let chats = vec![summary("chat-1", "One", None), summary("chat-2", "Two", None)];
    assert_eq!(choose_chat(&chats, " chat-2 ").expect("by id").chat_name, "Two");
}

#[test]
fn choices_that_pick_nothing_say_why() {
    let chats = vec![summary("chat-1", "One", None)];
    assert_eq!(choose_chat(&vec![], "1").err(), Some(SelectionError::NoChats));
    assert_eq!(choose_chat(&chats, " \n").err(), Some(SelectionError::NothingSelected));
    assert_eq!(choose_chat(&chats, "0").expect("first chat").chat_id, "chat-1");
    assert_eq!(choose_chat(&chats, "2").err(), Some(SelectionError::OutOfRange(2)));
    assert_eq!(
        choose_chat(&chats, "chat-9").err(),
        Some(SelectionError::UnknownChat("chat-9".to_string()))
    );
    assert_eq!(SelectionError::OutOfRange(2).message(), "chat number 2 is out of range");
    assert_eq!(SelectionError::NoChats.message(), "no chats found in source");
    assert_eq!(SelectionError::NothingSelected.message(), "no chat selected");
    assert_eq!(
        SelectionError::UnknownChat("chat-9".to_string()).message(),
        "no chat_id chat-9 in source"
    );
    assert_eq!(choice_line(7, &chats[0]), "  7. One (group, chat-1)");
}
