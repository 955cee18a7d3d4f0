//! What is drawn on the terminal, and what holds while a reply is typed.
use lazykatok::input::{
    apply_reply_input_events, burst_wait, key_effect, InputEvent, KeyCode, KeyEffect, KeyPress, ReplyRedraw,
};
use lazykatok::layout::{ChatEntry, ReplyRow, RowStyle};
use lazykatok::render::{draw_row, RowDrawing, Screen};
use lazykatok::time::Timestamp;
use lazykatok::watch::{ReplyUiState, ScrollDelta};

fn chat(seconds: i64, sender: &str, text: &str) -> ChatEntry {
    ChatEntry {
        timestamp: Timestamp::from_unix(seconds, 0).unwrap(),
        sender: sender.to_string(),
        text: text.to_string(),
    }
}

fn press(code: KeyCode) -> InputEvent {
    InputEvent::Key(KeyPress { code, control: false, release: false })
}

#[test]
fn only_rows_that_changed_are_drawn() {
    let mut ui = ReplyUiState::default();
    let mut screen = Screen::new();
    ui.push_line("one");
    let first = screen.render(&mut ui, 40, 8);
    assert!(first.clear_all);
    assert_eq!(first.drawn.len(), 8);
    assert_eq!(screen.terminal_height(), 8);

    let again = screen.render(&mut ui, 40, 8);
    assert!(!again.clear_all);
    assert!(again.drawn.is_empty());
    assert!(again.cleared.is_empty());

    ui.push_line("two");
    let grown = screen.render(&mut ui, 40, 8);
    assert!(!grown.drawn.is_empty());
    assert!(grown.drawn.iter().any(|row| row.content.text == "two"));

    let smaller = screen.render(&mut ui, 40, 6);
    assert!(smaller.clear_all);
    assert_eq!(smaller.drawn.len(), 6);
    assert_eq!(smaller.cleared, [6, 7]);

    screen.invalidate();
    assert!(screen.render(&mut ui, 40, 6).clear_all);
}

#[test]
fn typing_draws_the_input_alone() {
    let mut ui = ReplyUiState::default();
    let mut screen = Screen::new();
    screen.render(&mut ui, 40, 8);
    ui.insert('한');
    let plan = screen.render_input(&ui, 40, 8).expect("same size");
    assert_eq!(plan.text.as_deref(), Some("reply> 한"));
    assert_eq!(plan.cursor_column, 9);
    assert_eq!(plan.cursor_row, 6);
    let same = screen.render_input(&ui, 40, 8).expect("same size");
    assert_eq!(same.text, None);
    assert!(screen.render(&mut ui, 40, 8).drawn.is_empty());
    assert!(screen.render_input(&ui, 41, 8).is_none());
    assert!(screen.render(&mut ui, 40, 8).clear_all);
}

#[test]
fn messages_are_drawn_without_colours() {
    for (columns, palette) in [(0, 0), (8, 3), (8, 11)] {
        let row = ReplyRow {
            text: "12:00 한 body".to_string(),
            style: RowStyle::MessagePrefix { columns, palette },
        };
        assert_eq!(draw_row(&row), RowDrawing::Plain("12:00 한 body".to_string()));
    }
    let plain = ReplyRow { text: "input".to_string(), style: RowStyle::Plain };
    assert_eq!(draw_row(&plain), RowDrawing::Plain("input".to_string()));
    let dim = ReplyRow { text: "rule".to_string(), style: RowStyle::Dim };
    assert_eq!(draw_row(&dim), RowDrawing::Dim("rule".to_string()));
}

#[test]
fn what_was_typed_can_be_taken_back() {
    let mut ui = ReplyUiState::default();
    ui.paste("한 글");
    ui.left();
    let (draft, cursor) = (ui.draft(), ui.cursor());
    ui.insert('x');
    ui.backspace();
    assert_eq!((ui.draft(), ui.cursor()), (draft, cursor));
    ui.ctrl_u();
    ui.ctrl_k();
    assert_eq!((ui.draft().as_str(), ui.cursor()), ("", 0));
}

#[test]
fn words_are_cut_back_to_the_last_gap() {
    let mut ui = ReplyUiState::default();
    ui.paste("one two  ");
    ui.ctrl_w();
    assert_eq!(ui.draft(), "one ");
    ui.ctrl_w();
    assert_eq!(ui.draft(), "");
}

#[test]
fn batches_of_events_can_be_split() {
    let events = || {
        vec![
            press(KeyCode::Char('a')),
            InputEvent::Paste("b\nc".to_string()),
            InputEvent::Resize,
            press(KeyCode::Left),
            press(KeyCode::Enter),
            press(KeyCode::Char('d')),
        ]
    };
    let mut whole = ReplyUiState::default();
    let all = apply_reply_input_events(&mut whole, &events());
    for at in 0..=6 {
        let mut parts = ReplyUiState::default();
        let mut tail = events();
        let head = {
            let rest = tail.split_off(at);
            std::mem::replace(&mut tail, rest)
        };
        let first = apply_reply_input_events(&mut parts, &head);
        let second = apply_reply_input_events(&mut parts, &tail);
        let mut actions = first.actions;
        actions.extend(second.actions);
        assert_eq!(actions, all.actions);
        assert_eq!(parts.draft(), whole.draft());
        assert_eq!(parts.cursor(), whole.cursor());
    }
    assert_eq!(all.redraw, ReplyRedraw::Full);
}

#[test]
fn keys_do_what_they_are_labelled() {
    assert_eq!(key_effect(KeyCode::Char('d'), true), KeyEffect::Quit);
    assert_eq!(key_effect(KeyCode::Char('d'), false), KeyEffect::Type('d'));
    assert_eq!(key_effect(KeyCode::PageUp, false), KeyEffect::Scroll(ScrollDelta::Pages(-1)));
    assert_eq!(key_effect(KeyCode::Down, false), KeyEffect::Scroll(ScrollDelta::Rows(1)));
    assert_eq!(key_effect(KeyCode::Char('\t'), false), KeyEffect::Nothing);
    assert_eq!(key_effect(KeyCode::Other, false), KeyEffect::Nothing);
}

#[test]
fn a_scrolled_view_stays_while_messages_arrive() {
    let mut ui = ReplyUiState::default();
    for index in 0..30 {
        ui.push_system(&format!("line {index}"));
    }
    ui.frame(40, 10);
    ui.scroll(ScrollDelta::Pages(-1), 10);
    let before: Vec<_> = ui.frame(40, 10).conversation;
    ui.push_chat(chat(1_000, "Alice", "hello"));
    let after = ui.frame(40, 10).conversation;
    assert_eq!(after[..after.len() - 1], before[..before.len() - 1]);
    assert!(after.last().unwrap().text.contains("1 new message"));
    assert_eq!(ui.new_since_scroll(), 1);
    ui.scroll(ScrollDelta::Rows(isize::MAX), 10);
    assert!(ui.is_pinned_to_bottom());
    assert_eq!(ui.new_since_scroll(), 0);
    let bottom = ui.frame(40, 10).conversation;
    assert!(bottom.last().unwrap().text.contains("hello"));
}

#[test]
fn a_given_time_zone_decides_clock_and_day() {
    let mut ui = ReplyUiState::default();
    ui.push_chat_at(chat(86_340, "Alice", "late"), 0);
    ui.push_chat_at(chat(86_400, "Alice", "early"), 0);
    let rows: Vec<_> = ui.frame(60, 10).conversation.into_iter().map(|row| row.text).collect();
    assert_eq!(rows.len(), 3);
    assert!(rows[0].starts_with("23:59 Alice"));
    assert!(rows[1].contains("1970-01-02"));
    assert!(rows[2].starts_with("00:00 Alice"));
    let mut east = ReplyUiState::default();
    east.push_chat_at(chat(86_340, "Alice", "late"), 3_600);
    east.push_chat_at(chat(86_400, "Alice", "early"), 3_600);
    let rows: Vec<_> = east.frame(60, 10).conversation.into_iter().map(|row| row.text).collect();
    assert_eq!(rows.len(), 2);
    assert!(rows[0].starts_with("00:59 Alice"));
    assert!(rows[1].starts_with("01:00 ·"));
}

#[test]
fn bursts_of_input_end() {
    assert_eq!(burst_wait(1, 0), Some(2_000_000));
    assert_eq!(burst_wait(255, 7_000_000), Some(1_000_000));
    assert_eq!(burst_wait(256, 0), None);
    assert_eq!(burst_wait(1, 8_000_000), None);
}
