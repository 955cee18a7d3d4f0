//! Typing, sending and polling in a watch with replies.
use lazykatok::input::{
    apply_reply_input_events, InputEvent, KeyCode, KeyPress, ReplyRedraw, ReplyTerminalAction,
};
use lazykatok::layout::{ReplyRow, RowStyle};
use lazykatok::render::reply_row_changed;
use lazykatok::reply::{
    after_outcome, process_reply_action, render_reply_poll_outcome, settle_reply_send, PumpStep,
    ReplyRefusal, ReplySendRequest, ReplySendState, REPLY_HELP, REPLY_UNKNOWN,
};
use lazykatok::session::{
    ArchiveStep, PollArchiveState, ReplyPollOutcome, WatchOptions, WatchOutputFormat, WatchSession,
};
use lazykatok::time::Timestamp;
use lazykatok::types::RawMessage;
use lazykatok::watch::{ReplyUiState, ScrollDelta};

fn press(code: KeyCode) -> InputEvent {
    InputEvent::Key(KeyPress { code, control: false, release: false })
}

fn control(code: KeyCode) -> InputEvent {
    InputEvent::Key(KeyPress { code, control: true, release: false })
}

fn synthetic_message() -> RawMessage {
    RawMessage {
        account_hash: "account-synthetic".to_string(),
        chat_id: "chat-synthetic-1".to_string(),
        chat_name: "Synthetic Team".to_string(),
        chat_type: "group".to_string(),
        message_id: "message-synthetic-1".to_string(),
        sender_id: "sender-synthetic-1".to_string(),
        sender_nickname: "Synthetic Sender".to_string(),
        timestamp: Timestamp::from_unix(1_767_258_000, 0).expect("valid timestamp"),
        text: "Synthetic incoming message".to_string(),
        message_type: "text".to_string(),
        reply_to_message_id: None,
    }
}

fn session() -> WatchSession {
    WatchSession::new(
        WatchOptions {
            format: WatchOutputFormat::Text,
            chat_id: Some("chat-synthetic-1".to_string()),
            replay_existing: true,
            tail: 50,
            max_polls: Some(1),
        },
        Some("Synthetic Team".to_string()),
    )
}

fn system_lines(state: &mut ReplyUiState) -> Vec<String> {
    state
        .frame(120, 20)
        .conversation
        .into_iter()
        .map(|row| row.text)
        .collect()
}

fn submit(text: &str) -> ReplyTerminalAction {
    ReplyTerminalAction::Submit(text.to_string())
}

#[test]
fn reply_send_status_precedes_channel_completion() {
    let mut state = ReplyUiState::default();
    let mut sends = ReplySendState::new();

    let step = process_reply_action(
        &mut state,
        submit("확인"),
        Some("chat-synthetic-1"),
        false,
        20,
        &mut sends,
    )
    .expect("start reply send");

    assert!(!step.quit);
    assert_eq!(
        step.send,
        Some(ReplySendRequest {
            chat_id: "chat-synthetic-1".to_string(),
            body: "확인".to_string(),
            no_open: false,
        })
    );
    assert_eq!(system_lines(&mut state), ["katok: 전송 중…"]);

    settle_reply_send(&mut state, &mut sends, Ok(2));
    assert_eq!(
        system_lines(&mut state),
        ["katok: 전송 중…", "katok: sent reply (2 chars)"]
    );
}

#[test]
fn reply_send_busy_keeps_draft_and_does_not_start_a_second_sender() {
    let mut state = ReplyUiState::default();
    let mut sends = ReplySendState::new();

    let first = process_reply_action(
        &mut state,
        submit("first"),
        Some("chat-synthetic-1"),
        false,
        20,
        &mut sends,
    )
    .expect("start first reply");
    let second = process_reply_action(
        &mut state,
        submit("둘째 초안"),
        Some("chat-synthetic-1"),
        false,
        20,
        &mut sends,
    )
    .expect("reject concurrent reply");

    assert!(first.send.is_some());
    assert!(second.send.is_none());
    assert_eq!(state.draft(), "둘째 초안");
    assert_eq!(
        system_lines(&mut state),
        [
            "katok: 전송 중…",
            "katok: 이전 전송이 끝나기를 기다리는 중입니다"
        ]
    );
}

#[test]
fn reply_send_error_allows_a_subsequent_send() {
    let mut state = ReplyUiState::default();
    let mut sends = ReplySendState::new();

    let first = process_reply_action(
        &mut state,
        submit("first"),
        Some("chat-synthetic-1"),
        false,
        20,
        &mut sends,
    )
    .expect("start failing reply");
    settle_reply_send(&mut state, &mut sends, Err("synthetic send failure".to_string()));
    let second = process_reply_action(
        &mut state,
        submit("second"),
        Some("chat-synthetic-1"),
        false,
        20,
        &mut sends,
    )
    .expect("start subsequent reply");

    assert!(first.send.is_some());
    assert!(second.send.is_some());
    assert!(system_lines(&mut state)
        .iter()
        .any(|line| line == "katok: send failed: synthetic send failure"));
}

#[test]
fn reply_pump_quits_without_joining_an_in_flight_sender() {
    let mut state = ReplyUiState::default();
    let mut sends = ReplySendState::new();
    let outcome = ReplyPollOutcome::Completed {
        poll: 1,
        events: vec![],
        archive_changed: false,
        observed_messages: 0,
        observed_chats: 0,
        emitted_messages: 0,
        archived_messages: 0,
        chunks: 0,
        selected_chat_name: Some("Synthetic Team".to_string()),
    };
    render_reply_poll_outcome(&mut state, &outcome);
    assert_eq!(after_outcome(outcome, None), PumpStep::Continue);

    let sending = process_reply_action(
        &mut state,
        submit("still sending"),
        Some("chat-synthetic-1"),
        false,
        20,
        &mut sends,
    )
    .expect("start reply");
    assert!(sending.send.is_some());
    let quit = process_reply_action(
        &mut state,
        ReplyTerminalAction::Quit,
        Some("chat-synthetic-1"),
        false,
        20,
        &mut sends,
    )
    .expect("quit reply pump");

    assert!(quit.quit);
    assert!(sends.in_flight);
    assert!(system_lines(&mut state)
        .iter()
        .any(|line| line == "katok: 전송은 백그라운드에서 계속됩니다"));
}

#[test]
fn reply_pump_processes_input_while_worker_read_is_pending_then_renders_outcome() {
    let mut session = session();
    assert_eq!(session.begin_poll(), 1);

    let mut state = ReplyUiState::default();
    let input = apply_reply_input_events(&mut state, &vec![press(KeyCode::Char('x'))]);
    assert_eq!(input.redraw, ReplyRedraw::Input);
    assert_eq!(state.frame(80, 8).input, "reply> x");

    let seen = session.observe(&[synthetic_message()]);
    assert_eq!(seen.step, ArchiveStep::Sync);
    let outcome = session.complete(
        seen,
        Some(PollArchiveState { archive_changed: true, archived_messages: 1, chunks: 1 }),
    );
    render_reply_poll_outcome(&mut state, &outcome);

    let frame = state.frame(80, 8);
    assert_eq!(frame.input, "reply> x");
    assert!(frame
        .conversation
        .iter()
        .any(|row| row.text.contains("Synthetic incoming message")));
    assert!(session.is_finished());
    assert_eq!(after_outcome(outcome, Some(1)), PumpStep::Finished);
}

#[test]
fn reply_worker_error_is_rendered_as_a_system_line() {
    let mut session = session();
    assert_eq!(session.begin_poll(), 1);
    let outcome = session.fail("synthetic read failure".to_string());
    assert!(matches!(outcome, ReplyPollOutcome::Error { poll: 1, .. }));

    let mut state = ReplyUiState::default();
    render_reply_poll_outcome(&mut state, &outcome);
    assert!(state
        .frame(80, 8)
        .conversation
        .iter()
        .any(|row| row.text.contains("synthetic read failure")));
    assert_eq!(
        after_outcome(outcome, None),
        PumpStep::Failed("synthetic read failure".to_string())
    );
}

#[test]
fn row_diff_marks_only_changed_rows_after_the_initial_batch() {
    let previous = [
        ReplyRow { text: "history".to_string(), style: RowStyle::Dim },
        ReplyRow { text: "reply> old".to_string(), style: RowStyle::Plain },
    ];
    let unchanged = ReplyRow { text: "history".to_string(), style: RowStyle::Dim };
    let changed = ReplyRow { text: "reply> new".to_string(), style: RowStyle::Plain };

    assert!(!reply_row_changed(Some(&previous[0]), &unchanged));
    assert!(reply_row_changed(Some(&previous[1]), &changed));
    assert!(reply_row_changed(None, &unchanged));
}

#[test]
fn rapid_ascii_and_korean_input_is_applied_as_one_redraw_batch() {
    let mut state = ReplyUiState::default();
    let events = "rapid 확인 중"
        .chars()
        .map(|character| press(KeyCode::Char(character)))
        .collect();

    let batch = apply_reply_input_events(&mut state, &events);

    assert_eq!(batch.redraw, ReplyRedraw::Input);
    assert!(batch.actions.is_empty());
    assert_eq!(state.frame(80, 5).input, "reply> rapid 확인 중");
}

#[test]
fn enter_code_and_cr_lf_character_variants_submit() {
    for enter in [
        press(KeyCode::Enter),
        control(KeyCode::Char('\r')),
        press(KeyCode::Char('\n')),
    ] {
        let mut state = ReplyUiState::default();
        state.paste("확인");

        let batch = apply_reply_input_events(&mut state, &vec![enter]);

        assert_eq!(batch.actions, [submit("확인")]);
        assert_eq!(state.frame(80, 5).input, "reply> ");
    }
}

#[test]
fn paste_newlines_do_not_submit_and_a_later_enter_does() {
    let mut state = ReplyUiState::default();
    let paste = apply_reply_input_events(
        &mut state,
        &vec![InputEvent::Paste("first\r\n둘째".to_string())],
    );

    assert!(paste.actions.is_empty());
    assert_eq!(state.frame(80, 5).input, "reply> first  둘째");

    let enter = apply_reply_input_events(&mut state, &vec![press(KeyCode::Enter)]);
    assert_eq!(enter.actions, [submit("first  둘째")]);
}

#[test]
fn backspace_resize_and_incoming_history_preserve_the_draft() {
    let mut state = ReplyUiState::default();
    let typed = "abc한"
        .chars()
        .map(|character| press(KeyCode::Char(character)))
        .collect();
    let first = apply_reply_input_events(&mut state, &typed);
    assert_eq!(first.redraw, ReplyRedraw::Input);

    state.push_line("[now] Synthetic Room / Tester: incoming");
    let second = apply_reply_input_events(
        &mut state,
        &vec![
            InputEvent::Resize,
            press(KeyCode::Backspace),
            press(KeyCode::Char('글')),
        ],
    );

    assert_eq!(second.redraw, ReplyRedraw::Full);
    let frame = state.frame(40, 8);
    assert_eq!(frame.input, "reply> abc글");
    assert_eq!(frame.conversation.len(), 1);
    assert_eq!(
        frame.conversation[0].text,
        "[now] Synthetic Room / Tester: incoming"
    );
}

#[test]
fn printable_alt_characters_are_kept_but_control_commands_remain_explicit() {
    let mut state = ReplyUiState::default();
    let batch = apply_reply_input_events(
        &mut state,
        &vec![
            press(KeyCode::Char('é')),
            press(KeyCode::Char('A')),
            control(KeyCode::Char('x')),
            control(KeyCode::Char('c')),
        ],
    );

    assert_eq!(state.frame(80, 5).input, "reply> éA");
    assert_eq!(batch.actions, [ReplyTerminalAction::Quit]);
}

#[test]
fn movement_delete_kill_and_scroll_keys_apply_expected_actions() {
    let mut state = ReplyUiState::default();
    state.paste("one two");
    let batch = apply_reply_input_events(
        &mut state,
        &vec![
            press(KeyCode::Left),
            control(KeyCode::Char('b')),
            press(KeyCode::Delete),
            control(KeyCode::Char('w')),
            press(KeyCode::Home),
            control(KeyCode::Char('k')),
            press(KeyCode::Up),
            press(KeyCode::PageDown),
        ],
    );

    assert_eq!(state.draft(), "");
    assert_eq!(batch.redraw, ReplyRedraw::Input);
    assert_eq!(
        batch.actions,
        [
            ReplyTerminalAction::Scroll(ScrollDelta::Rows(-1)),
            ReplyTerminalAction::Scroll(ScrollDelta::Pages(1)),
        ]
    );
}

#[test]
fn control_a_b_e_f_match_home_left_end_right() {
    let mut state = ReplyUiState::default();
    state.paste("abc");
    apply_reply_input_events(
        &mut state,
        &vec![
            control(KeyCode::Char('a')),
            control(KeyCode::Char('f')),
            control(KeyCode::Char('e')),
            control(KeyCode::Char('b')),
            control(KeyCode::Char('u')),
        ],
    );
    assert_eq!(state.draft(), "c");
    assert_eq!(state.cursor(), 0);
}

#[test]
fn release_events_are_ignored() {
    let mut state = ReplyUiState::default();
    let event = InputEvent::Key(KeyPress {
        code: KeyCode::Char('x'),
        control: false,
        release: true,
    });

    let batch = apply_reply_input_events(&mut state, &vec![event]);

    assert_eq!(batch.redraw, ReplyRedraw::Nothing);
    assert!(batch.actions.is_empty());
    assert_eq!(state.frame(80, 5).input, "reply> ");
}

#[test]
fn slash_commands_are_answered_and_never_sent() {
    let mut state = ReplyUiState::default();
    let mut sends = ReplySendState::new();
    for (line, quit, told) in [
        ("/help", false, Some(REPLY_HELP)),
        ("/sned hello", false, Some(REPLY_UNKNOWN)),
        ("", false, None),
        ("/quit", true, None),
    ] {
        let before = system_lines(&mut state).len();
        let step = process_reply_action(
            &mut state,
            submit(line),
            Some("chat-synthetic-1"),
            false,
            20,
            &mut sends,
        )
        .expect("slash command");
        assert!(step.send.is_none());
        assert_eq!(step.quit, quit);
        assert!(!sends.in_flight);
        let lines = system_lines(&mut state);
        match told {
            Some(words) => assert!(lines.concat().ends_with(words)),
            None => assert_eq!(lines.len(), before),
        }
    }
}

#[test]
fn a_reply_without_a_chat_is_refused() {
    let mut state = ReplyUiState::default();
    let mut sends = ReplySendState::new();
    let step = process_reply_action(&mut state, submit("hello"), None, false, 20, &mut sends);
    assert_eq!(step.err(), Some(ReplyRefusal::NoSelectedChat));
    assert!(!sends.in_flight);
    assert_eq!(
        ReplyRefusal::NoSelectedChat.message(),
        "watch --reply has no selected chat"
    );
}

#[test]
fn one_poll_behind_another_needs_no_second_sync() {
    let mut session = session();
    let messages = [synthetic_message()];
    session.begin_poll();
    let first = session.observe(&messages);
    assert_eq!(first.step, ArchiveStep::Sync);
    session.complete(
        first,
        Some(PollArchiveState { archive_changed: true, archived_messages: 7, chunks: 3 }),
    );
    session.begin_poll();
    let second = session.observe(&messages);
    assert_eq!(
        second.step,
        ArchiveStep::RecordFreshness { archived_messages: 7, chunks: 3 }
    );
    assert!(second.events.is_empty());
    assert!(matches!(
        session.complete(second, None),
        ReplyPollOutcome::Completed {
            poll: 2,
            archive_changed: false,
            archived_messages: 7,
            chunks: 3,
            ..
        }
    ));
}
