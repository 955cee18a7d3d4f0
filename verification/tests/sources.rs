//! The sources of messages.
use lazykatok::adapters::{
    adapter_for_source, ChatSummary, FixtureAdapter, KakaocliAdapter, MacosAdapter, ReadOutput,
    ReaderOutput, SourceAdapter, SourceChat, SourceCoverage, SourceError, SourceKind,
    SourceRefusal, WindowsAdapter, NO_READABLE_ROOM,
};
use lazykatok::time::Timestamp;
use lazykatok::types::RawMessage;
use std::path::PathBuf;

fn instant(iso: &str) -> Timestamp {
    let time = chrono::DateTime::parse_from_rfc3339(iso).expect("parse timestamp");
    Timestamp::from_unix(time.timestamp(), time.timestamp_subsec_nanos()).expect("instant")
}

fn fixture_message(chat_id: &str, message_id: &str, timestamp: &str) -> RawMessage {
    RawMessage {
        account_hash: "acct-synthetic".to_string(),
        chat_id: chat_id.to_string(),
        chat_name: format!("Room {chat_id}"),
        chat_type: "group".to_string(),
        message_id: message_id.to_string(),
        sender_id: "u1".to_string(),
        sender_nickname: "테스터".to_string(),
        timestamp: instant(timestamp),
        text: "합성 메시지".to_string(),
        message_type: "text".to_string(),
        reply_to_message_id: None,
    }
}

fn fixture() -> Vec<RawMessage> {
    vec![
        fixture_message("chat-a", "a1", "2026-01-01T09:00:00Z"),
        fixture_message("chat-b", "b1", "2026-01-01T10:00:00Z"),
        fixture_message("chat-a", "a2", "2026-01-02T08:00:00Z"),
        fixture_message("chat-b", "b2", "2026-01-01T09:30:00Z"),
    ]
}

#[test]
fn fixture_chats_carry_latest_message_time() {
    let mut adapter = FixtureAdapter::new(PathBuf::from("chats.jsonl"));
    assert_eq!(adapter.path(), &PathBuf::from("chats.jsonl"));
    assert_eq!(adapter.chats().err(), Some(SourceError::NotRead));
    adapter.load(fixture());

    let chats = adapter.chats().expect("read chats");
    let mut seen = std::collections::BTreeMap::new();
    for chat in chats {
        seen.insert(chat.chat_id.clone(), chat.last_message_at);
    }
    assert_eq!(
        seen.get("chat-a").copied().flatten(),
        Some(instant("2026-01-02T08:00:00Z"))
    );
    assert_eq!(
        seen.get("chat-b").copied().flatten(),
        Some(instant("2026-01-01T10:00:00Z"))
    );
    assert_eq!(adapter.messages().expect("read messages"), fixture());
    assert_eq!(adapter.coverage(), None);
}

#[test]
fn a_read_of_the_macos_database_is_kept_and_dates_its_chats() {
    let mut adapter = MacosAdapter::new(PathBuf::from("/home"), PathBuf::from("/data"));
    assert_eq!(adapter.home(), &PathBuf::from("/home"));
    assert_eq!(adapter.data_dir(), &PathBuf::from("/data"));
    assert!(!adapter.is_read());
    let failure = SourceError::Kakao("locked".to_string());
    assert_eq!(adapter.load(Err(failure.clone())).err(), Some(failure));
    assert!(!adapter.is_read());
    let chat = |id: &str| SourceChat {
        chat_id: id.to_string(),
        chat_name: format!("Room {id}"),
        chat_type: "group".to_string(),
    };
    adapter
        .load(Ok(ReaderOutput {
            chats: vec![chat("chat-b"), chat("chat-quiet"), chat("chat-a")],
            messages: fixture(),
        }))
        .expect("first read");
    adapter
        .load(Ok(ReaderOutput { chats: vec![], messages: vec![] }))
        .expect("kept read");
    let chats = adapter.chats().expect("chats");
    let dated: Vec<_> = chats
        .iter()
        .map(|chat| (chat.chat_id.as_str(), chat.last_message_at))
        .collect();
    assert_eq!(
        dated,
        [
            ("chat-b", Some(instant("2026-01-01T10:00:00Z"))),
            ("chat-quiet", None),
            ("chat-a", Some(instant("2026-01-02T08:00:00Z"))),
        ]
    );
    assert_eq!(adapter.messages().expect("messages").len(), 4);
}

#[test]
fn a_windows_source_without_open_rooms_is_an_error() {
    let room = ChatSummary {
        chat_id: "1".to_string(),
        chat_name: "Room".to_string(),
        chat_type: "group".to_string(),
        last_message_at: None,
    };
    let mut locked = WindowsAdapter::default();
    assert_eq!(locked.coverage(), None);
    assert_eq!(locked.messages().err(), Some(SourceError::NotRead));
    locked
        .load(Ok(ReadOutput {
            chats: vec![room.clone()],
            messages: vec![],
            available: 0,
            locked: 1,
        }))
        .expect("read");
    assert!(locked.is_read());
    assert_eq!(locked.chats().expect("chats"), [room]);
    assert_eq!(
        locked.messages().err(),
        Some(SourceError::Kakao(NO_READABLE_ROOM.to_string()))
    );
    assert_eq!(
        locked.coverage(),
        Some(SourceCoverage { available_chats: 0, unavailable_chats: 1 })
    );
    let mut empty = WindowsAdapter::default();
    empty
        .load(Ok(ReadOutput { chats: vec![], messages: vec![], available: 0, locked: 0 }))
        .expect("read");
    assert_eq!(empty.messages().expect("no rooms at all"), []);
}

#[test]
fn a_failed_program_is_told_with_its_own_words() {
    assert_eq!(
        KakaocliAdapter::failure("chats", "exit status: 1", b" no access \n"),
        SourceError::Kakaocli("kakaocli chats failed (exit status: 1): no access".to_string())
    );
    assert_eq!(
        KakaocliAdapter::failure("messages", "exit status: 2", b"\n").message(),
        "kakaocli messages failed (exit status: 2): no stderr output (run `kakaocli auth` to check database access)"
    );
    assert_eq!(
        KakaocliAdapter::failure("chats", "1", &[0xff]).message(),
        "kakaocli chats failed (1): \u{fffd}"
    );
    assert_eq!(
        KakaocliAdapter::missing("not found").message(),
        "kakaocli not found on PATH; install kakaocli or ensure it is executable (not found)"
    );
    assert_eq!(
        KakaocliAdapter::invalid_output("chats", "eof").message(),
        "kakaocli chats returned invalid JSON: eof"
    );
}

#[test]
fn sources_are_named_by_platform() {
    assert_eq!(adapter_for_source("fixture", true, false).ok(), Some(SourceKind::Fixture));
    assert_eq!(
        adapter_for_source("fixture", false, true).err(),
        Some(SourceRefusal::FixtureNeedsPath)
    );
    assert_eq!(adapter_for_source("kakaocli", false, true).ok(), Some(SourceKind::Kakaocli));
    assert_eq!(adapter_for_source("kakao", false, true).ok(), Some(SourceKind::Windows));
    assert_eq!(adapter_for_source("kakao", false, false).ok(), Some(SourceKind::Macos));
    assert_eq!(adapter_for_source("windows", false, true).ok(), Some(SourceKind::Windows));
    assert_eq!(
        adapter_for_source("windows", false, false).err(),
        Some(SourceRefusal::WindowsOnly)
    );
    assert_eq!(
        adapter_for_source("macos", false, true).err(),
        Some(SourceRefusal::MacosUnavailable)
    );
    assert_eq!(
        adapter_for_source("mail", false, false).err().map(|refusal| refusal.message()),
        Some("unsupported source adapter: mail".to_string())
    );
}
