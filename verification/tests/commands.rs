//! What commands check, refuse and report.
use lazykatok::adapters::SourceCoverage;
use lazykatok::cli::{
    check_command, check_send, check_watch, command_requests_json, plan, ArgumentFault, Commands,
    MediaCommand, OptionName, PermissionsCommand, SearchCommand, SendArguments, SourceCommand,
    Task, WatchArguments,
};
use lazykatok::commands::{
    check_prune, check_wipe, choose_error_detail, curtain_title, focus_policy, needs_full_rebuild,
    open_send, poll_archive_state, prepare_watch, prune_key, reply_send_args, room_target,
    send_body, send_child_error_detail, send_mode, send_report, send_target, watch_options,
    widen_touched, ArchivedChat, ChunkSettings, FocusPolicy, Refusal, RoomTarget, SendArgument,
    SendMode, SendOpening, SendTarget, TouchedChat,
};
use lazykatok::session::{
    closing_event, effective_watch_format, remaining_poll_delay, started_event, tail_events,
    text_line, PollArchiveState, WatchOptions, WatchOutputFormat, WatchSession,
};
use lazykatok::time::Timestamp;
use lazykatok::types::RawMessage;
use lazykatok::watch::{WatchEvent, WatchState};
use std::path::PathBuf;
use std::time::Duration;

fn send() -> SendArguments {
    SendArguments {
        room: None,
        chat: None,
        text: None,
        image: None,
        list_windows: false,
        list_rooms: false,
        limit: 40,
        dry_run: false,
        no_open: false,
        background_only: false,
        draft: false,
        take_focus_now: false,
        focus_wait: None,
        accept_use_policy: false,
        json: false,
    }
}

fn watch() -> WatchArguments {
    WatchArguments {
        source: None,
        path: None,
        chat: None,
        select: false,
        format: None,
        tail: 50,
        reply: false,
        reply_no_open: false,
        accept_use_policy: false,
        poll_ms: 2_000,
        once: false,
        max_polls: None,
        replay_existing: false,
    }
}

#[test]
fn send_listing_modes_parse_without_target() {
    for flag in ["--list-windows", "--list-rooms"] {
        let arguments = SendArguments {
            list_windows: flag == "--list-windows",
            list_rooms: flag == "--list-rooms",
            ..send()
        };
        let command = Commands::Send { arguments };
        check_command(&command)
            .unwrap_or_else(|error| panic!("{flag} should not require --room: {error:?}"));

        assert!(matches!(
            command,
            Commands::Send { arguments: SendArguments { list_windows: true, .. } }
                | Commands::Send { arguments: SendArguments { list_rooms: true, .. } }
        ));
    }
}

#[test]
fn poll_delay_preserves_start_to_start_interval_and_saturates_on_overrun() {
    let poll_started = Duration::from_secs(100);
    let deadline = poll_started + Duration::from_secs(2);
    let remaining = |now: Duration| remaining_poll_delay(deadline.as_nanos(), now.as_nanos());
    assert_eq!(
        remaining(poll_started + Duration::from_millis(750)),
        Duration::from_millis(1_250).as_nanos()
    );
    assert_eq!(
        remaining(poll_started + Duration::from_millis(2_500)),
        Duration::ZERO.as_nanos()
    );
}

#[test]
fn send_child_error_detail_prefers_stderr() {
    let detail = send_child_error_detail(
        "exit status: 1",
        br#"{"ok":false,"error":{"message":"stdout message","cause":"stdout cause"}}"#,
        b"stderr cause\n",
    );

    assert_eq!(detail, "stderr cause");
}

#[test]
fn send_child_error_detail_reads_json_stdout_cause() {
    let detail = send_child_error_detail(
        "exit status: 1",
        br#"{
              "ok": false,
              "error": {
                "message": "command failed",
                "cause": "no chat chat-group-1 in the archive; run sync first"
              }
            }"#,
        b"",
    );

    assert_eq!(
        detail,
        "no chat chat-group-1 in the archive; run sync first"
    );
}

#[test]
fn send_child_error_detail_falls_back_to_status() {
    let detail = send_child_error_detail("exit status: 1", b"", b"");

    assert_eq!(detail, "katok send failed with exit status: 1");
}

#[test]
fn send_child_error_detail_takes_the_next_best_words() {
    let message = br#"{"error":{"message":"only a message","cause":7}}"#;
    assert_eq!(send_child_error_detail("1", message, b" \n"), "only a message");
    assert_eq!(send_child_error_detail("1", b" not json \n", b""), "not json");
    assert_eq!(send_child_error_detail("1", b"{\"error\":{}}", b""), "{\"error\":{}}");
    assert_eq!(send_child_error_detail("1", b"", b"\xff!"), "\u{fffd}!");
    assert_eq!(
        choose_error_detail("1", "out".into(), "".into(), None, Some("m".into())),
        "m"
    );
    assert_eq!(
        choose_error_detail("1", "".into(), "".into(), Some("c".into()), None),
        "katok send failed with 1"
    );
}

#[test]
fn reply_send_args_makes_no_open_replies_strictly_background_only() {
    let default_args = reply_send_args("chat-group-1", false);
    let no_open_args = reply_send_args("chat-group-1", true);
    let is = |argument: &SendArgument, text: &str| *argument == SendArgument::Literal(text.into());

    assert!(!default_args.iter().any(|arg| is(arg, "--no-open")));
    assert!(!default_args.iter().any(|arg| is(arg, "--background-only")));
    assert!(default_args
        .windows(2)
        .any(|args| is(&args[0], "--focus-wait") && is(&args[1], "2")));
    assert!(no_open_args.iter().any(|arg| is(arg, "--no-open")));
    assert!(no_open_args.iter().any(|arg| is(arg, "--background-only")));
    assert!(!no_open_args.iter().any(|arg| is(arg, "--focus-wait")));

    let texts: Vec<String> = no_open_args
        .into_iter()
        .map(|argument| match argument {
            SendArgument::Literal(text) => text,
            SendArgument::DataDir => "/tmp/katok-data".to_string(),
        })
        .collect();
    assert_eq!(
        texts,
        [
            "--data-dir",
            "/tmp/katok-data",
            "send",
            "--chat",
            "chat-group-1",
            "--accept-use-policy",
            "--json",
            "--no-open",
            "--background-only",
        ]
    );
}

#[test]
fn sends_that_do_not_go_together_are_told_apart() {
    let target = || SendArguments { room: Some("Room".into()), ..send() };
    assert_eq!(check_send(&send()).err(), Some(ArgumentFault::TargetMissing));
    assert!(check_send(&target()).is_ok());
    let conflict = |first, second| Some(ArgumentFault::Conflict { first, second });
    assert_eq!(
        check_send(&SendArguments { chat: Some("1".into()), ..target() }).err(),
        conflict(OptionName::Chat, OptionName::Room)
    );
    assert_eq!(
        check_send(&SendArguments {
            image: Some(PathBuf::from("a.png")),
            text: Some("hi".into()),
            ..target()
        })
        .err(),
        conflict(OptionName::Image, OptionName::Text)
    );
    assert_eq!(
        check_send(&SendArguments { background_only: true, ..target() }).err(),
        Some(ArgumentFault::Requires {
            first: OptionName::BackgroundOnly,
            second: OptionName::NoOpen
        })
    );
    let background = || SendArguments { background_only: true, no_open: true, ..target() };
    assert!(check_send(&background()).is_ok());
    assert_eq!(
        check_send(&SendArguments { draft: true, ..background() }).err(),
        conflict(OptionName::BackgroundOnly, OptionName::Draft)
    );
    assert_eq!(
        check_send(&SendArguments { draft: true, dry_run: true, ..target() }).err(),
        conflict(OptionName::Draft, OptionName::DryRun)
    );
    assert_eq!(
        check_send(&SendArguments { focus_wait: Some(3), take_focus_now: true, ..target() }).err(),
        conflict(OptionName::FocusWait, OptionName::TakeFocusNow)
    );
}

#[test]
fn watches_that_do_not_go_together_are_told_apart() {
    assert!(check_watch(&watch()).is_ok());
    let range = |option| Some(ArgumentFault::OutOfRange { option });
    for (tail, valid) in [(0, false), (1, true), (1_000, true), (1_001, false)] {
        let result = check_watch(&WatchArguments { tail, ..watch() });
        assert_eq!(result.err(), if valid { None } else { range(OptionName::Tail) });
    }
    for (poll_ms, valid) in [(249, false), (250, true), (60_000, true), (60_001, false)] {
        let result = check_watch(&WatchArguments { poll_ms, ..watch() });
        assert_eq!(result.err(), if valid { None } else { range(OptionName::PollMs) });
    }
    for (polls, valid) in [(0, false), (1, true), (100_000, true), (100_001, false)] {
        let result = check_watch(&WatchArguments { max_polls: Some(polls), ..watch() });
        assert_eq!(result.err(), if valid { None } else { range(OptionName::MaxPolls) });
    }
    assert_eq!(
        check_watch(&WatchArguments { chat: Some("1".into()), select: true, ..watch() }).err(),
        Some(ArgumentFault::Conflict { first: OptionName::Chat, second: OptionName::Select })
    );
    assert_eq!(
        check_watch(&WatchArguments { reply_no_open: true, ..watch() }).err(),
        Some(ArgumentFault::Requires {
            first: OptionName::ReplyNoOpen,
            second: OptionName::Reply
        })
    );
}

#[test]
fn limits_and_prune_options_are_checked() {
    let search = |limit| Commands::Search {
        command: SearchCommand::Bm25 { query: "q".into(), limit, json: false },
    };
    assert!(check_command(&search(1)).is_ok());
    assert!(check_command(&search(100_000)).is_ok());
    let fault = Some(ArgumentFault::OutOfRange { option: OptionName::Limit });
    assert_eq!(check_command(&search(0)).err(), fault);
    assert_eq!(check_command(&search(100_001)).err(), fault);
    let backfill = |limit| Commands::Media {
        command: MediaCommand::Backfill {
            chat: None,
            out: None,
            kinds: vec![],
            dry_run: false,
            max_bytes: 1,
            limit,
            json: false,
        },
    };
    assert!(check_command(&backfill(1_000_000)).is_ok());
    assert_eq!(check_command(&backfill(1_000_001)).err(), fault);
    let sync = |prune_preview, prune_deleted| Commands::Sync {
        source: None,
        path: None,
        json: false,
        prune_preview,
        prune_deleted,
        touched: false,
    };
    assert!(check_command(&sync(true, false)).is_ok());
    assert_eq!(
        check_command(&sync(true, true)).err(),
        Some(ArgumentFault::Conflict {
            first: OptionName::PruneDeleted,
            second: OptionName::PrunePreview
        })
    );
}

#[test]
fn json_is_asked_for_by_flag_or_by_format() {
    assert!(command_requests_json(&Commands::Watch { arguments: watch() }));
    assert!(!command_requests_json(&Commands::Watch {
        arguments: WatchArguments { select: true, ..watch() }
    }));
    assert!(command_requests_json(&Commands::Watch {
        arguments: WatchArguments { select: true, format: Some(WatchOutputFormat::Jsonl), ..watch() }
    }));
    assert!(command_requests_json(&Commands::Watch {
        arguments: WatchArguments { reply: true, ..watch() }
    }));
    assert!(!command_requests_json(&Commands::Watch {
        arguments: WatchArguments { format: Some(WatchOutputFormat::Text), ..watch() }
    }));
    assert!(command_requests_json(&Commands::Permissions {
        command: PermissionsCommand::Macos { accessibility: false, dry_run: true, json: true }
    }));
    assert!(!command_requests_json(&Commands::Doctor { macos_probe: true, json: false }));
    assert_eq!(effective_watch_format(false, None), WatchOutputFormat::Jsonl);
    assert_eq!(effective_watch_format(true, None), WatchOutputFormat::Text);
    assert_eq!(
        effective_watch_format(true, Some(WatchOutputFormat::Jsonl)),
        WatchOutputFormat::Jsonl
    );
}

#[test]
fn a_plan_settles_the_source() {
    let chats = |source| Commands::Source {
        command: SourceCommand::Chats { source, path: None, json: true },
    };
    assert!(matches!(
        plan(chats(None), "macos".into()),
        Task::SourceChats { source, path: None, json: true } if source == "macos"
    ));
    assert!(matches!(
        plan(chats(Some("fixture".into())), "macos".into()),
        Task::SourceChats { source, .. } if source == "fixture"
    ));
    assert!(matches!(
        plan(Commands::Watch { arguments: watch() }, "kakao".into()),
        Task::Watch { source, .. } if source == "kakao"
    ));
}

#[test]
fn replies_need_text_a_chat_the_policy_and_terminals() {
    let reply = || WatchArguments {
        reply: true,
        select: true,
        accept_use_policy: true,
        ..watch()
    };
    assert_eq!(prepare_watch(&reply(), true, true).ok(), Some(WatchOutputFormat::Text));
    assert_eq!(prepare_watch(&watch(), false, false).ok(), Some(WatchOutputFormat::Jsonl));
    for (arguments, input, output, refusal) in [
        (
            WatchArguments { format: Some(WatchOutputFormat::Jsonl), ..reply() },
            true,
            true,
            Refusal::ReplyNeedsText,
        ),
        (WatchArguments { select: false, ..reply() }, true, true, Refusal::ReplyNeedsChat),
        (
            WatchArguments { accept_use_policy: false, ..reply() },
            true,
            true,
            Refusal::PolicyNotAccepted,
        ),
        (reply(), false, true, Refusal::InputNotTerminal),
        (reply(), true, false, Refusal::OutputNotTerminal),
    ] {
        assert_eq!(prepare_watch(&arguments, input, output).err(), Some(refusal));
    }
    let once = watch_options(
        &WatchArguments { once: true, max_polls: Some(9), ..watch() },
        WatchOutputFormat::Text,
        Some("1".into()),
    );
    assert_eq!(once.max_polls, Some(1));
    assert_eq!(once.tail, 50);
    assert_eq!(once.chat_id.as_deref(), Some("1"));
}

#[test]
fn refusals_have_their_words() {
    for (refusal, words) in [
        (Refusal::ReplyNeedsText, "reply mode is only available with --format text"),
        (Refusal::ReplyNeedsChat, "reply mode requires --chat or --select"),
        (Refusal::EmptyMessage, "refusing to send an empty message"),
        (Refusal::TargetMissing, "pass --room or --chat"),
        (Refusal::WipeNotConfirmed, "refusing to wipe semantic index without --yes"),
        (
            Refusal::ChatNotArchived("chat-1".into()),
            "no chat chat-1 in the archive; run sync first",
        ),
        (
            Refusal::SourceIncomplete(2),
            "refusing to reconcile deletions: 2 room(s) could not be read",
        ),
    ] {
        assert_eq!(refusal.message(), words);
    }
    assert!(check_wipe(true).is_ok());
    assert_eq!(check_wipe(false).err(), Some(Refusal::WipeNotConfirmed));
}

#[test]
fn nothing_is_sent_without_the_policy_a_text_and_a_target() {
    let target = || SendArguments { room: Some("Room".into()), ..send() };
    assert_eq!(open_send(&target()).err(), Some(Refusal::PolicyNotAccepted));
    assert_eq!(
        open_send(&SendArguments { dry_run: true, ..target() }).ok(),
        Some(SendOpening::WithoutBody)
    );
    assert_eq!(
        open_send(&SendArguments { list_rooms: true, limit: 3, ..send() }).ok(),
        Some(SendOpening::ListRooms { limit: 3 })
    );
    let accepted = || SendArguments { accept_use_policy: true, ..target() };
    assert_eq!(open_send(&accepted()).ok(), Some(SendOpening::ReadBody));
    assert_eq!(
        open_send(&SendArguments { text: Some("hi".into()), ..accepted() }).ok(),
        Some(SendOpening::GivenBody)
    );
    assert_eq!(send_body("hi\n\n").ok().as_deref(), Some("hi"));
    assert_eq!(send_body(" hi\r\n").ok().as_deref(), Some(" hi\r"));
    assert_eq!(send_body("\n\n").err(), Some(Refusal::EmptyMessage));
    assert_eq!(send_target(&send()).err(), Some(Refusal::TargetMissing));
    assert_eq!(send_target(&target()).ok(), Some(SendTarget::Room("Room".into())));
    let at = Timestamp::from_unix(7, 0).unwrap();
    let known = || Some(ArchivedChat { name: "Room".into(), last_message_at: at });
    assert_eq!(
        room_target(SendTarget::Chat("1".into()), known()),
        Ok(RoomTarget { name: "Room".into(), last_message_at: Some(at) })
    );
    assert_eq!(
        room_target(SendTarget::Chat("1".into()), None),
        Err(Refusal::ChatNotArchived("1".into()))
    );
    assert_eq!(
        room_target(SendTarget::Room("Other".into()), known()),
        Ok(RoomTarget { name: "Other".into(), last_message_at: None })
    );
}

#[test]
fn a_send_does_one_thing_and_says_which() {
    let target = || SendArguments { chat: Some("1".into()), ..send() };
    let image = || SendArguments { image: Some(PathBuf::from("a.png")), ..target() };
    for (arguments, mode, title) in [
        (
            SendArguments { background_only: true, no_open: true, ..target() },
            SendMode::Background,
            "카톡 보내는 중",
        ),
        (SendArguments { dry_run: true, ..target() }, SendMode::Resolve, "카톡 채팅방 여는 중"),
        (image(), SendMode::Image, "카톡 이미지 보내는 중"),
        (SendArguments { draft: true, ..target() }, SendMode::Draft, "카톡 초안 넣는 중"),
        (target(), SendMode::Text, "카톡 보내는 중"),
    ] {
        assert_eq!(send_mode(&arguments), mode);
        assert_eq!(curtain_title(&arguments), title);
    }
    assert_eq!(focus_policy(&target()), FocusPolicy::Wait { seconds: 15 });
    assert_eq!(
        focus_policy(&SendArguments { focus_wait: Some(2), ..target() }),
        FocusPolicy::Wait { seconds: 2 }
    );
    assert_eq!(
        focus_policy(&SendArguments { take_focus_now: true, ..target() }),
        FocusPolicy::Immediate
    );
    let text = send_report(SendMode::Text, "Room".into(), None, Some("한글"));
    assert_eq!((text.sent, text.drafted, text.chars), (true, Some(false), Some(2)));
    let draft = send_report(SendMode::Draft, "Room".into(), None, Some("abc"));
    assert_eq!((draft.sent, draft.drafted, draft.chars), (false, Some(true), Some(3)));
    let picture = send_report(SendMode::Image, "Room".into(), None, None);
    assert_eq!(picture.image.as_deref(), Some("(unnamed)"));
    let resolved = send_report(SendMode::Resolve, "Room".into(), None, None);
    assert_eq!((resolved.resolved, resolved.sent), (Some(true), false));
}

#[test]
fn deletions_are_reconciled_only_against_a_whole_source() {
    let partial = SourceCoverage { available_chats: 3, unavailable_chats: 2 };
    let whole = SourceCoverage { available_chats: 3, unavailable_chats: 0 };
    assert_eq!(check_prune(true, Some(partial)).err(), Some(Refusal::SourceIncomplete(2)));
    assert!(check_prune(false, Some(partial)).is_ok());
    assert!(check_prune(true, Some(whole)).is_ok());
    assert!(check_prune(true, None).is_ok());
    assert_eq!(prune_key(true), "pruned_messages");
    assert_eq!(prune_key(false), "prunable_messages");
}

#[test]
fn chats_that_lost_messages_are_touched_as_a_whole() {
    let touched = |id: &str, time: &str, message: &str| TouchedChat {
        chat_id: id.into(),
        earliest_changed_timestamp: time.into(),
        earliest_changed_message_id: message.into(),
    };
    let widened = widen_touched(
        vec![touched("b", "t1", "m1"), touched("c", "t2", "m2")],
        &["z".to_string(), "c".to_string(), "a".to_string(), "c".to_string()],
    );
    assert_eq!(
        widened,
        [
            touched("b", "t1", "m1"),
            touched("c", "", ""),
            touched("a", "", ""),
            touched("z", "", ""),
        ]
    );
}

#[test]
fn chunks_are_rebuilt_when_their_settings_changed() {
    let settings = ChunkSettings {
        group_gap_seconds: 600,
        direct_gap_seconds: 1_800,
        chunker_version: 3,
    };
    assert!(!needs_full_rebuild(5, Some(settings), settings));
    assert!(needs_full_rebuild(0, Some(settings), settings));
    assert!(needs_full_rebuild(5, None, settings));
    assert!(needs_full_rebuild(
        5,
        Some(ChunkSettings { chunker_version: 2, ..settings }),
        settings
    ));
    let state = poll_archive_state(0, 1, 9, 4);
    assert_eq!(
        state,
        PollArchiveState { archive_changed: true, archived_messages: 9, chunks: 4 }
    );
    assert!(!poll_archive_state(0, 0, 9, 4).archive_changed);
}

fn message(id: &str, seconds: i64) -> RawMessage {
    RawMessage {
        account_hash: "a".into(),
        chat_id: "chat-1".into(),
        chat_name: "Room".into(),
        chat_type: "group".into(),
        message_id: id.into(),
        sender_id: "u".into(),
        sender_nickname: "Tester".into(),
        timestamp: Timestamp::from_unix(seconds, 0).unwrap(),
        text: "hello".into(),
        message_type: "text".into(),
        reply_to_message_id: None,
    }
}

#[test]
fn a_person_sees_the_tail_of_the_first_poll() {
    let mut session = WatchSession::new(
        WatchOptions {
            format: WatchOutputFormat::Text,
            chat_id: Some("chat-1".into()),
            replay_existing: false,
            tail: 2,
            max_polls: None,
        },
        None,
    );
    assert!(matches!(
        started_event(),
        WatchEvent::State { state: WatchState::Started, poll: 0, .. }
    ));
    session.begin_poll();
    let messages: Vec<RawMessage> = (0..5).map(|i| message(&format!("m{i}"), i)).collect();
    let seen = session.observe(&messages);
    assert_eq!(seen.observed_messages, 5);
    assert_eq!(seen.observed_chats, 1);
    let lines: Vec<String> = seen.events.iter().filter_map(text_line).collect();
    assert_eq!(
        lines,
        [
            "[1970-01-01 00:00:03 UTC] Room / Tester: hello",
            "[1970-01-01 00:00:04 UTC] Room / Tester: hello",
        ]
    );
    let outcome = session.complete(
        seen,
        Some(PollArchiveState { archive_changed: false, archived_messages: 5, chunks: 1 }),
    );
    assert!(matches!(
        closing_event(&outcome),
        Some(WatchEvent::State {
            state: WatchState::Synced,
            poll: 1,
            emitted_messages: 2,
            archived_messages: Some(5),
            chunks: Some(1),
            ..
        })
    ));
    session.begin_poll();
    assert!(matches!(
        session.reading_event(),
        WatchEvent::State { state: WatchState::Reading, poll: 2, observed_messages: 5, .. }
    ));
    let quiet = session.observe(&messages);
    let outcome = session.complete(quiet, None);
    assert!(matches!(
        closing_event(&outcome),
        Some(WatchEvent::State { state: WatchState::Idle, .. })
    ));
    assert!(!session.is_finished());
    assert!(tail_events(vec![started_event()], 0).is_empty());
}
