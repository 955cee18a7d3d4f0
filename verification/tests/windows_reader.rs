//! The databases on Windows, by synthetic ones. No real installation is opened.
use lazykatok::digits::wide_text;
use lazykatok::kakao::names::NameTable;
use lazykatok::kakao::windows::native::{
    account_hash, can_read, candidate_places, check_first_block, check_process_count,
    choose_profile, eq_ignore_case, key_matches, keys_still_serve, locate_chat_list,
    locate_contacts, next_region, read_output, region_part, room_read, room_source, scan_due, search_goes_on,
    DatabaseFile, KeySearch, Part, Probe, ProfileSelection, RoomRead, KEY_SIZE, LIST_LOCKED,
    LIST_MISSING, PAGE_SIZE, PROFILE_AMBIGUOUS, PROFILE_FOREIGN, PROFILE_UNAVAILABLE,
    ROOM_AMBIGUOUS,
};
use lazykatok::kakao::windows::send::{
    bodies_match, check_accepted, check_body, check_compose_count, check_control_length,
    check_draft, check_lock, check_owner, check_title, choose_target, choose_window, control_text,
    delivery_report, is_compose_class, is_delivered, keeps_waiting, lock_name, prepare_delivery,
    Delivery, DeliveryReport, LockAnswer, SendRequest, Stage, BODY_MISSING, COMPOSE_AMBIGUOUS, CONFIRM_MILLIS,
    CONTROL_CHANGED, CONTROL_INVALID, DRAFT_CHANGED, DRAFT_PRESENT, DRAFT_REJECTED, NO_BASELINE,
    OWNER_CHANGED, SEND_BUSY, SEND_INTERRUPTED, TARGET_MISSING, TITLE_SHARED, UNCONFIRMED,
    WINDOW_MISSING,
};
use lazykatok::adapters::{ChatSummary, SourceError};
use lazykatok::kakao::windows::{
    key_pragma, read_messages, read_names, read_rooms, timestamp, validate_text, DatabaseFault,
    MessageRow, NameRow, RoomRow, BAD_MESSAGE_ROW, BAD_MESSAGE_TIME, BAD_NAME_SCHEMA,
    BAD_ROOM_ROW, BAD_ROOM_SCHEMA, BAD_TEXT, MESSAGE_QUERY, NAME_QUERY, ROOM_QUERY,
};
use lazykatok::time::Timestamp;
use lazykatok::types::RawMessage;
use rusqlite::{Connection, OpenFlags};
use std::io::{Read, Seek, SeekFrom};

fn room_rows(db: &Connection) -> Result<Vec<RoomRow>, DatabaseFault> {
    let mut statement = db.prepare(ROOM_QUERY).map_err(|_| DatabaseFault::Schema)?;
    let rows = statement
        .query_map([], |row| {
            Ok(RoomRow {
                id: row.get(0)?,
                kind: row.get(1)?,
                title: row.get(2)?,
                last_updated_at: row.get(3)?,
            })
        })
        .map_err(|error| DatabaseFault::Query(error.to_string()))?;
    rows.collect::<Result<Vec<_>, _>>()
        .map_err(|error| DatabaseFault::Row(error.to_string()))
}

fn message_rows(db: &Connection) -> Result<Vec<Option<MessageRow>>, DatabaseFault> {
    let mut statement = db.prepare(MESSAGE_QUERY).map_err(|_| DatabaseFault::Schema)?;
    let rows = statement
        .query_map([], |row| {
            Ok(MessageRow {
                id: row.get(0)?,
                sender: row.get(1)?,
                text: row.get(2)?,
                kind: row.get(3)?,
                sent_at: row.get(4)?,
            })
        })
        .map_err(|error| DatabaseFault::Query(error.to_string()))?;
    Ok(rows.map(|row| row.ok()).collect())
}

fn name_rows(db: &Connection) -> Result<Vec<NameRow>, DatabaseFault> {
    let mut statement = db.prepare(NAME_QUERY).map_err(|_| DatabaseFault::Schema)?;
    let rows = statement
        .query_map([], |row| Ok(NameRow { id: row.get(0)?, name: row.get(1)? }))
        .map_err(|error| DatabaseFault::Query(error.to_string()))?;
    rows.collect::<Result<Vec<_>, _>>()
        .map_err(|error| DatabaseFault::Row(error.to_string()))
}

fn words<T>(result: Result<T, SourceError>) -> String {
    match result {
        Ok(_) => panic!("an error was expected"),
        Err(error) => error.message(),
    }
}

#[test]
fn windows_text_validation_rejects_invalid_input_before_accessing_an_app() {
    for text in ["", " \r\n\t", "synthetic\0text"] {
        assert!(validate_text(text).is_err());
    }
    assert!(validate_text("한글\n둘째 줄 😀").is_ok());
    assert!(validate_text(&"😀".repeat(5000)).is_ok());
    assert!(validate_text(&"😀".repeat(5001)).is_err());
}

#[test]
fn windows_reader_uses_stable_ids_unicode_and_filters_deleted_rows() {
    let db = Connection::open_in_memory().unwrap();
    db.execute_batch("CREATE TABLE chatRoomList(chatId INTEGER, type TEXT, chatRoomTitle TEXT, lastUpdatedAt INTEGER);
        INSERT INTO chatRoomList VALUES(11, 'MultiChat', '합성 방 😀', 1767225600);
        CREATE TABLE chatLogs(logId INTEGER, authorId INTEGER, message TEXT, type INTEGER, sendAt INTEGER, deleted INTEGER);
        INSERT INTO chatLogs VALUES(21, 31, '첫 줄\n둘째 줄 😀', 1, 1767225600, 0);
        INSERT INTO chatLogs VALUES(22, 31, '삭제된 합성 내용', 1, 1767225601, 1);
        INSERT INTO chatLogs VALUES(23, 31, NULL, 2, 1767225602, NULL);").unwrap();
    let rooms = read_rooms(room_rows(&db)).unwrap();
    assert_eq!(rooms[0].chat_id, "11");
    assert_eq!(rooms[0].chat_name, "합성 방 😀");
    let mut names = NameTable::default();
    names.insert("31".to_string(), "합성 사용자".to_string());
    let messages = read_messages(message_rows(&db), &rooms[0], "synthetic-account", &names).unwrap();
    assert_eq!(messages.len(), 2);
    assert_eq!(messages[0].message_id, "21");
    assert_eq!(messages[0].text, "첫 줄\n둘째 줄 😀");
    assert_eq!(messages[0].sender_nickname, "합성 사용자");
    assert_eq!(messages[1].message_type, "image");
}

#[test]
fn unsupported_windows_schema_is_an_error_not_an_empty_success() {
    let db = Connection::open_in_memory().unwrap();
    db.execute_batch("CREATE TABLE unexpected(value TEXT);")
        .unwrap();
    assert!(read_rooms(room_rows(&db)).is_err());
    assert_eq!(words(read_rooms(room_rows(&db))), BAD_ROOM_SCHEMA);
    assert!(read_messages(message_rows(&db), &room("1", "Room"), "a", &NameTable::default()).is_err());
    assert_eq!(words(read_names(name_rows(&db))), BAD_NAME_SCHEMA);
}

fn open_with_key(path: &std::path::Path, key: &[u8; 32]) -> Option<Connection> {
    let db = Connection::open_with_flags(
        path,
        OpenFlags::SQLITE_OPEN_READ_ONLY | OpenFlags::SQLITE_OPEN_NO_MUTEX,
    )
    .ok()?;
    db.execute_batch(&key_pragma(key)).ok()?;
    db.query_row("SELECT count(*) FROM sqlite_master", [], |row| row.get::<_, i64>(0))
        .ok()?;
    Some(db)
}

fn contents(file: &mut tempfile::NamedTempFile) -> Vec<u8> {
    let mut bytes = Vec::new();
    file.as_file_mut().seek(SeekFrom::Start(0)).unwrap();
    file.as_file_mut().read_to_end(&mut bytes).unwrap();
    bytes
}

#[test]
fn windows_raw_key_read_is_read_only_and_rejects_a_wrong_key() {
    let mut file = tempfile::NamedTempFile::new().unwrap();
    let path = file.path().to_path_buf();
    let key = [0x51; 32];
    {
        let db = Connection::open(&path).unwrap();
        db.execute_batch(&format!("PRAGMA key = \"x'{}'\"; PRAGMA cipher_page_size=4096; CREATE TABLE synthetic(value INTEGER); INSERT INTO synthetic VALUES(7);", "51".repeat(32))).unwrap();
    }
    let before = contents(&mut file);
    let db = open_with_key(&path, &key).unwrap();
    assert_eq!(
        db.query_row("SELECT value FROM synthetic", [], |r| r.get::<_, i64>(0))
            .unwrap(),
        7
    );
    assert!(db.execute("DELETE FROM synthetic", []).is_err());
    assert!(open_with_key(&path, &[0x52; 32]).is_none());
    assert_eq!(contents(&mut file), before);
}

#[test]
fn scans_only_the_synthetic_test_process_and_authenticates_the_key() {
    let mut file = tempfile::NamedTempFile::new().unwrap();
    let path = file.path().to_path_buf();
    let key: [u8; 32] = std::array::from_fn(|i| (i + 1) as u8);
    let hex: String = key.iter().map(|b| format!("{b:02x}")).collect();
    {
        let db = Connection::open(&path).unwrap();
        db.execute_batch(&format!("PRAGMA key=\"x'{hex}'\"; PRAGMA cipher_page_size=4096; CREATE TABLE synthetic(value INTEGER); INSERT INTO synthetic VALUES(42);")).unwrap();
    }
    let first = contents(&mut file)[..PAGE_SIZE].to_vec();
    assert!(key_matches(&first, &key));
    assert!(!key_matches(&first, &[7; 32]));
    // A synthetic record of the kind that holds a key.
    let mut record = vec![0x31u8; 128];
    record[0] = 1;
    record[1] = 0x88;
    record[2..34].copy_from_slice(&key);
    let mut search = KeySearch::new(vec![Probe { file: 5, first }]);
    assert!(search_goes_on(&search, 0));
    assert!(!search_goes_on(&search, 20_000));
    let mut found = None;
    for place in candidate_places(&record) {
        let candidate: [u8; 32] = record[place..place + KEY_SIZE].try_into().unwrap();
        for file in search.offer(&candidate) {
            assert_eq!(file, 5);
            if open_with_key(&path, &candidate).is_some() {
                search.settle(file);
                found = Some(candidate);
            }
        }
    }
    assert_eq!(found, Some(key));
    assert!(search.is_done());
    assert!(!search_goes_on(&search, 0));
}

#[test]
fn a_candidate_is_offered_once_and_short_pages_are_left_out() {
    let file = tempfile::NamedTempFile::new().unwrap();
    let key = [0x51; 32];
    {
        let db = Connection::open(file.path()).unwrap();
        db.execute_batch(&key_pragma(&key).replace(" PRAGMA query_only=ON;", "")).unwrap();
        db.execute_batch("CREATE TABLE synthetic(value INTEGER);").unwrap();
    }
    let mut file = file;
    let first = contents(&mut file)[..PAGE_SIZE].to_vec();
    let mut search = KeySearch::new(vec![
        Probe { file: 0, first: vec![0; 16] },
        Probe { file: 1, first: first.clone() },
        Probe { file: 2, first },
    ]);
    assert_eq!(search.offer(&key), [1, 2]);
    assert!(search.offer(&key).is_empty());
    search.settle(1);
    assert!(!search.is_done());
    search.settle(2);
    assert!(search.is_done());
}

#[test]
fn a_first_page_is_told_by_its_header() {
    let mut page = vec![0u8; PAGE_SIZE];
    let block = [0x10, 0, 1, 2, 48, 0x40, 0x20, 0x20, 0, 0, 0, 0, 0, 0, 0, 0];
    assert!(check_first_block(&block, &page));
    page[PAGE_SIZE - 48] = 1;
    assert!(!check_first_block(&block, &page));
    let mut wrong = block;
    wrong[4] = 47;
    assert!(!check_first_block(&wrong, &vec![0u8; PAGE_SIZE]));
    wrong = block;
    wrong[2] = 3;
    assert!(!check_first_block(&wrong, &vec![0u8; PAGE_SIZE]));
}

#[test]
fn candidates_stand_behind_marks_and_have_few_zeros() {
    let mut buffer = vec![0x31u8; 89];
    buffer[0] = 7;
    buffer[1] = 0x88;
    assert_eq!(candidate_places(&buffer), [2, 17, 50, 57]);
    buffer[0] = 8;
    assert!(candidate_places(&buffer).is_empty());
    buffer[0] = 0;
    for i in 2..5 {
        buffer[i] = 0;
    }
    assert_eq!(candidate_places(&buffer), [17, 50, 57]);
    assert!(candidate_places(&buffer[..88]).is_empty());
}

#[test]
fn regions_are_read_in_overlapping_parts() {
    let step = 1024 * 1024;
    assert_eq!(region_part(10, 0), Some(Part { offset: 0, size: 10 }));
    assert_eq!(region_part(10, 1), None);
    assert_eq!(region_part(0, 0), None);
    assert_eq!(
        region_part(3 * step, 1),
        Some(Part { offset: step - 89, size: step + 89 })
    );
    assert_eq!(
        region_part(2 * step, 1),
        Some(Part { offset: step - 89, size: step + 89 })
    );
    assert_eq!(
        region_part(step + 5, 1),
        Some(Part { offset: step - 89, size: 94 })
    );
    assert_eq!(next_region(4096, 4096, 4096), Some(8192));
    assert_eq!(next_region(0, 0, 0), None);
    assert_eq!(next_region(usize::MAX, 1, 0), None);
}

#[test]
fn memory_that_cannot_be_read_is_passed_over() {
    assert!(can_read(0x1000, 0x20000, 0x04));
    assert!(can_read(0x1000, 0x20000, 0x204));
    assert!(!can_read(0x1000, 0x20000, 0x104));
    assert!(!can_read(0x1000, 0x20000, 0x01));
    assert!(!can_read(0x2000, 0x20000, 0x04));
    assert!(!can_read(0x1000, 0x40000, 0x04));
}

#[test]
fn keys_are_searched_for_only_now_and_then() {
    assert!(scan_due(None));
    assert!(!scan_due(Some(9_999)));
    assert!(scan_due(Some(10_000)));
    assert!(keys_still_serve(4, 4, true));
    assert!(!keys_still_serve(4, 5, true));
    assert!(!keys_still_serve(4, 4, false));
}

#[test]
fn no_profile_is_guessed() {
    assert_eq!(choose_profile(1, ProfileSelection::Unset).unwrap(), 0);
    assert_eq!(words(choose_profile(0, ProfileSelection::Unset)), PROFILE_AMBIGUOUS);
    assert_eq!(words(choose_profile(2, ProfileSelection::Unset)), PROFILE_AMBIGUOUS);
    assert_eq!(choose_profile(2, ProfileSelection::Profile(1)).unwrap(), 1);
    assert_eq!(words(choose_profile(2, ProfileSelection::Foreign)), PROFILE_FOREIGN);
    assert_eq!(words(choose_profile(2, ProfileSelection::Unavailable)), PROFILE_UNAVAILABLE);
    assert!(check_process_count(1).is_ok());
    assert!(check_process_count(0).is_err());
    assert!(check_process_count(2).is_err());
}

#[test]
fn an_account_is_known_by_the_digest_of_its_profile() {
    assert_eq!(
        account_hash("abc"),
        "ba7816bf8f01cfea414140de5dae2223b00361a396177a9cb410ff61f20015ad"
    );
}

fn file(name: &str, has_key: bool) -> DatabaseFile {
    DatabaseFile { name: name.to_string(), has_key }
}

fn room(id: &str, name: &str) -> ChatSummary {
    ChatSummary {
        chat_id: id.to_string(),
        chat_name: name.to_string(),
        chat_type: "group".to_string(),
        last_message_at: None,
    }
}

#[test]
fn database_files_are_told_apart_by_name() {
    assert!(eq_ignore_case("CHATLISTINFO.edb", "chatListInfo.EDB"));
    assert!(!eq_ignore_case("chatListInfo.ed", "chatListInfo.edb"));
    let files = vec![
        file("TALKUSERDB.EDB", true),
        file("chatlistinfo.edb", true),
        file("TalkUserDB.edb", false),
        file("chatLogs_11.edb", true),
        file("chatLogs_12.edb", false),
    ];
    assert_eq!(locate_chat_list(&files).unwrap(), 1);
    assert_eq!(locate_contacts(&files), [0]);
    assert_eq!(room_source(&files, &room("11", "A")).unwrap(), Some(3));
    assert_eq!(room_source(&files, &room("12", "B")).unwrap(), None);
    assert_eq!(room_source(&files, &room("13", "C")).unwrap(), None);
    let twice = vec![file("chatLogs_11.edb", true), file("CHATLOGS_11.EDB", true)];
    assert_eq!(words(room_source(&twice, &room("11", "A"))), ROOM_AMBIGUOUS);
    assert_eq!(words(locate_chat_list(&twice)), LIST_MISSING);
    assert_eq!(words(locate_chat_list(&vec![file("chatListInfo.edb", false)])), LIST_LOCKED);
    assert!(locate_contacts(&twice).is_empty());
    let both = vec![file("TalkUserDB.edb", true), file("a.edb", true), file("talkuserdb.edb", true)];
    assert_eq!(locate_contacts(&both), [0, 2]);
}

fn message(chat_id: &str, id: &str, text: &str) -> RawMessage {
    RawMessage {
        account_hash: "account".to_string(),
        chat_id: chat_id.to_string(),
        chat_name: "Room".to_string(),
        chat_type: "group".to_string(),
        message_id: id.to_string(),
        sender_id: "u1".to_string(),
        sender_nickname: "Tester".to_string(),
        timestamp: Timestamp::from_unix(0, 0).unwrap(),
        text: text.to_string(),
        message_type: "text".to_string(),
        reply_to_message_id: None,
    }
}

#[test]
fn rooms_count_as_available_or_locked() {
    let output = read_output(
        vec![room("1", "A"), room("2", "B"), room("3", "C")],
        vec![
            RoomRead::Messages(vec![message("1", "m1", "x"), message("1", "m2", "y")]),
            RoomRead::Locked,
            RoomRead::Messages(vec![message("3", "m3", "z")]),
        ],
    );
    assert_eq!(output.available, 2);
    assert_eq!(output.locked, 1);
    assert_eq!(output.chats.len(), 3);
    let ids: Vec<_> = output.messages.iter().map(|m| m.message_id.as_str()).collect();
    assert_eq!(ids, ["m1", "m2", "m3"]);
}

#[test]
fn room_rows_fall_back_to_the_id_and_keep_their_time() {
    let rooms = read_rooms(Ok(vec![
        RoomRow { id: "1".into(), kind: Some("DirectChat".into()), title: Some(" ".into()), last_updated_at: Some(1_767_225_600_123) },
        RoomRow { id: "2".into(), kind: Some("MemoChat".into()), title: None, last_updated_at: None },
        RoomRow { id: "3".into(), kind: None, title: Some("Room".into()), last_updated_at: Some(i64::MAX) },
    ]))
    .unwrap();
    assert_eq!(rooms[0].chat_name, "Chat 1");
    assert_eq!(rooms[0].chat_type, "direct");
    let time = rooms[0].last_message_at.unwrap();
    assert_eq!(time.timestamp(), 1_767_225_600);
    assert_eq!(time.timestamp_subsec_nanos(), 123_000_000);
    assert_eq!(rooms[1].chat_name, "Chat 2");
    assert_eq!(rooms[1].chat_type, "direct");
    assert_eq!(rooms[1].last_message_at, None);
    assert_eq!(rooms[2].chat_type, "group");
    assert_eq!(rooms[2].last_message_at, None);
    assert_eq!(words(read_rooms(Err(DatabaseFault::Row("x".into())))), BAD_ROOM_ROW);
    assert_eq!(
        read_rooms(Err(DatabaseFault::Query("locked".into()))).err(),
        Some(SourceError::Database("locked".to_string()))
    );
}

#[test]
fn database_times_are_seconds_or_milliseconds() {
    assert_eq!(timestamp(100_000_000_000).unwrap().timestamp(), 100_000_000_000);
    let later = timestamp(100_000_000_001).unwrap();
    assert_eq!(later.timestamp(), 100_000_000);
    assert_eq!(later.timestamp_subsec_nanos(), 1_000_000);
    assert_eq!(timestamp(i64::MAX), None);
    assert_eq!(timestamp(i64::MIN), None);
}

#[test]
fn names_come_from_rows_that_have_one() {
    let db = Connection::open_in_memory().unwrap();
    db.execute_batch("CREATE TABLE talkUser(userId INTEGER, friendNickName TEXT, nickName TEXT, linkId INTEGER);
        INSERT INTO talkUser VALUES(1, '', 'one', 0);
        INSERT INTO talkUser VALUES(2, 'friend', 'two', 0);
        INSERT INTO talkUser VALUES(3, NULL, NULL, 0);
        INSERT INTO talkUser VALUES(4, 'open', 'four', 9);").unwrap();
    let names = read_names(name_rows(&db)).unwrap();
    assert_eq!(names.get("1").as_deref(), Some("one"));
    assert_eq!(names.get("2").as_deref(), Some("friend"));
    assert_eq!(names.get("3"), None);
    assert_eq!(names.get("4"), None);
    let later = read_names(Ok(vec![
        NameRow { id: "1".into(), name: Some("old".into()) },
        NameRow { id: "1".into(), name: Some(String::new()) },
        NameRow { id: "1".into(), name: Some("new".into()) },
    ]))
    .unwrap();
    assert_eq!(later.get("1").as_deref(), Some("new"));
    assert_eq!(
        read_names(Err(DatabaseFault::Row("bad".into()))).err(),
        Some(SourceError::Database("bad".to_string()))
    );
}

fn row(id: &str, kind: Option<i64>, sent_at: i64) -> Option<MessageRow> {
    Some(MessageRow { id: id.into(), sender: "9".into(), text: None, kind, sent_at })
}

#[test]
fn the_first_broken_row_says_why_a_room_cannot_be_read() {
    let names = NameTable::default();
    let chat = room("1", "Room");
    let read = |rows| read_messages(Ok(rows), &chat, "a", &names);
    let kinds = [
        (Some(1), "text"),
        (Some(2), "image"),
        (Some(3), "video"),
        (Some(5), "audio"),
        (Some(18), "file"),
        (Some(26), "reply"),
        (Some(4), "other"),
        (None, "other"),
    ];
    for (kind, name) in kinds {
        let messages = read(vec![row("1", kind, 5)]).unwrap();
        assert_eq!(messages[0].message_type, name);
        assert_eq!(messages[0].text, "");
        assert_eq!(messages[0].sender_nickname, "User 9");
    }
    assert_eq!(words(read(vec![row("1", None, 5), None, row("2", None, i64::MAX)])), BAD_MESSAGE_ROW);
    assert_eq!(words(read(vec![row("1", None, i64::MAX), None])), BAD_MESSAGE_TIME);
}

#[test]
fn only_one_room_can_be_aimed_at() {
    let chats = vec![room("1", "A"), room("2", "B"), room("3", "B")];
    assert_eq!(choose_target(&chats, None, Some("1")).unwrap(), 0);
    assert_eq!(choose_target(&chats, Some("A"), None).unwrap(), 0);
    assert_eq!(choose_target(&chats, Some("B"), Some("1")).unwrap(), 0);
    assert_eq!(words(choose_target(&chats, Some("B"), None)), TARGET_MISSING);
    assert_eq!(words(choose_target(&chats, None, Some("9"))), TARGET_MISSING);
    assert_eq!(words(choose_target(&chats, None, None)), TARGET_MISSING);
    assert_eq!(words(choose_target(&chats, None, Some("2"))), TITLE_SHARED);
}

#[test]
fn only_one_window_and_one_control_will_do() {
    let titles = vec!["A".to_string(), "B".to_string(), "A".to_string()];
    assert_eq!(choose_window(&titles, "B").unwrap(), 1);
    assert_eq!(words(choose_window(&titles, "A")), WINDOW_MISSING);
    assert_eq!(words(choose_window(&titles, "C")), WINDOW_MISSING);
    assert!(is_compose_class("RICHEDIT50W"));
    assert!(is_compose_class("richedit20w"));
    assert!(!is_compose_class("Edit"));
    assert!(check_compose_count(1).is_ok());
    assert!(check_compose_count(0).is_err());
    assert!(check_control_length(65_536).is_ok());
    assert!(check_control_length(65_537).is_err());
    let wide = wide_text("a😀한");
    assert_eq!(wide, [0x61, 0xd83d, 0xde00, 0xd55c, 0]);
    assert_eq!(control_text(4, 4, &wide).unwrap(), "a😀한");
    assert_eq!(words(control_text(4, 2, &wide)), CONTROL_INVALID);
    assert_eq!(words(control_text(4, 5, &wide)), CONTROL_CHANGED);
    assert_eq!(lock_name(42), "Local\\LazyKatokSend-42");
    assert!(check_lock(LockAnswer::Acquired).is_ok());
    assert_eq!(words(check_lock(LockAnswer::Abandoned)), SEND_INTERRUPTED);
    assert_eq!(words(check_lock(LockAnswer::Held)), SEND_BUSY);
}

#[test]
fn nothing_is_written_over_a_draft_or_without_a_baseline() {
    let messages = vec![message("1", "m1", "x")];
    assert_eq!(words(prepare_delivery("left", &messages, "1", true)), DRAFT_PRESENT);
    assert_eq!(words(prepare_delivery("", &messages, "2", false)), NO_BASELINE);
    assert!(prepare_delivery("", &messages, "2", true).is_ok());
    assert!(prepare_delivery("", &messages, "1", false).is_ok());
    assert_eq!(words(check_body(None)), BODY_MISSING);
    assert_eq!(words(check_body(Some("  "))), BAD_TEXT);
    assert_eq!(check_body(Some(" hi ")).unwrap(), " hi ");
}

#[test]
fn a_delivery_is_confirmed_by_a_new_message_only() {
    let before = vec![message("1", "m1", "hello\nthere"), message("2", "m2", "hello\nthere")];
    let baseline = prepare_delivery("", &before, "1", false).unwrap();
    let body = "hello\r\nthere";
    assert!(!is_delivered(&before, "1", &baseline, body));
    let mut after = before.clone();
    after.push(message("2", "m3", "hello\nthere"));
    after.push(message("1", "m4", "other"));
    assert!(!is_delivered(&after, "1", &baseline, body));
    after.push(message("1", "m5", "hello\nthere"));
    assert!(is_delivered(&after, "1", &baseline, body));
    assert!(bodies_match("a\r\nb\r", "a\nb\r"));
    assert!(!bodies_match("a\rb", "a\nb"));
    assert!(keeps_waiting(7_999));
    assert!(!keeps_waiting(8_000));
}

#[test]
fn a_change_before_the_submission_stops_it() {
    assert!(check_accepted(1).is_ok());
    assert!(check_accepted(0).is_err());
    assert!(check_title("A", "A").is_ok());
    assert!(check_title("A", "B").is_err());
    assert!(check_draft("a\r\nb", "a\nb").is_ok());
    assert!(check_draft("a", "b").is_err());
    assert!(check_owner(4, 4).is_ok());
    assert!(check_owner(4, 5).is_err());
    assert_eq!(
        delivery_report(true, "1", "한글"),
        DeliveryReport::Drafted { chat_id: "1".to_string(), chars: 2 }
    );
    assert_eq!(
        delivery_report(false, "1", "abc"),
        DeliveryReport::Sent { chat_id: "1".to_string(), chars: 3 }
    );
}

fn aimed(body: Option<&str>, dry_run: bool, draft: bool) -> Delivery {
    let rooms = vec![room("1", "A"), room("2", "B")];
    let request = SendRequest::new(None, Some("2"), body, dry_run, draft).unwrap();
    Delivery::aim(request, &rooms, 7).unwrap()
}

/// A delivery whose text was written and confirmed.
fn confirmed(draft: bool) -> Delivery {
    let mut delivery = aimed(Some("a\nb"), false, draft);
    assert_eq!(delivery.stage(), Stage::FindingWindow);
    let titles = vec!["A".to_string(), "B".to_string()];
    assert_eq!(delivery.windows_listed(&titles).unwrap(), 1);
    assert_eq!(delivery.stage(), Stage::FindingControl);
    assert!(delivery.controls_counted(1).unwrap().is_none());
    assert_eq!(delivery.stage(), Stage::ReadingDraft);
    delivery.draft_read("", &vec![message("2", "m1", "a\nb")]).unwrap();
    assert_eq!(delivery.stage(), Stage::Writing);
    assert_eq!(delivery.wide_body(), [97, 10, 98, 0]);
    delivery.text_written(1).unwrap();
    assert_eq!(delivery.stage(), Stage::ConfirmingTitle);
    delivery.title_read("B").unwrap();
    assert_eq!(delivery.stage(), Stage::ConfirmingText);
    delivery.text_read("a\r\nb").unwrap();
    assert_eq!(delivery.stage(), Stage::ConfirmingOwner);
    delivery
}

#[test]
fn a_delivery_goes_from_the_window_to_the_message() {
    let mut delivery = confirmed(false);
    assert!(delivery.owner_read(7).unwrap().is_none());
    assert_eq!(delivery.stage(), Stage::Submitting);
    delivery.submitted(Ok(())).unwrap();
    assert_eq!(delivery.stage(), Stage::Waiting);
    let old = vec![message("2", "m1", "a\nb"), message("1", "m2", "a\nb")];
    assert!(delivery.looked(Some(&old), 250).unwrap().is_none());
    assert!(delivery.looked(None, 500).unwrap().is_none());
    assert_eq!(delivery.stage(), Stage::Waiting);
    let new = vec![message("2", "m1", "a\nb"), message("2", "m3", "a\r\nb")];
    match delivery.looked(Some(&new), CONFIRM_MILLIS + 100).unwrap() {
        Some(DeliveryReport::Sent { chat_id, chars }) => {
            assert_eq!(chat_id, "2");
            assert_eq!(chars, 3);
        }
        _ => panic!("the delivery shows"),
    }
    assert_eq!(delivery.stage(), Stage::Finished);
}

#[test]
fn an_unconfirmed_delivery_ends_and_is_not_submitted_again() {
    let mut delivery = confirmed(false);
    assert!(delivery.owner_read(7).unwrap().is_none());
    delivery.submitted(Ok(())).unwrap();
    assert_eq!(words(delivery.looked(None, CONFIRM_MILLIS)), UNCONFIRMED);
    assert_eq!(delivery.stage(), Stage::Finished);

    let mut delivery = confirmed(false);
    assert!(delivery.owner_read(7).unwrap().is_none());
    let silent = SourceError::Kakao("silent".to_string());
    assert_eq!(delivery.submitted(Err(silent)), Err(SourceError::Kakao("silent".to_string())));
    assert_eq!(delivery.stage(), Stage::Finished);
}

#[test]
fn a_draft_is_left_in_the_compose_box() {
    let mut delivery = confirmed(true);
    match delivery.owner_read(7).unwrap() {
        Some(DeliveryReport::Drafted { chat_id, chars }) => {
            assert_eq!(chat_id, "2");
            assert_eq!(chars, 3);
        }
        _ => panic!("a draft is not submitted"),
    }
    assert_eq!(delivery.stage(), Stage::Finished);
}

#[test]
fn a_dry_run_ends_at_the_control() {
    let mut delivery = aimed(None, true, false);
    delivery.windows_listed(&vec!["B".to_string()]).unwrap();
    match delivery.controls_counted(1).unwrap() {
        Some(DeliveryReport::Resolved { chat_id }) => assert_eq!(chat_id, "2"),
        _ => panic!("a dry run writes nothing"),
    }
    assert_eq!(delivery.stage(), Stage::Finished);
}

#[test]
fn a_delivery_ends_at_the_first_thing_that_is_off() {
    let rooms = vec![room("1", "A"), room("2", "A")];
    let aim = |room, chat| {
        let request = SendRequest::new(room, chat, Some("x"), false, false).unwrap();
        Delivery::aim(request, &rooms, 7)
    };
    assert_eq!(words(aim(None, Some("3"))), TARGET_MISSING);
    assert_eq!(words(aim(None, None)), TARGET_MISSING);
    assert_eq!(words(aim(Some("A"), None)), TARGET_MISSING);
    assert_eq!(words(aim(None, Some("2"))), TITLE_SHARED);

    let mut delivery = aimed(Some("x"), false, false);
    assert_eq!(words(delivery.windows_listed(&vec!["A".to_string()])), WINDOW_MISSING);
    assert_eq!(delivery.stage(), Stage::Finished);

    let found = |body: Option<&str>, controls: usize| {
        let mut delivery = aimed(body, false, false);
        delivery.windows_listed(&vec!["B".to_string()]).unwrap();
        let end = words(delivery.controls_counted(controls));
        assert_eq!(delivery.stage(), Stage::Finished);
        end
    };
    assert_eq!(found(Some("x"), 0), COMPOSE_AMBIGUOUS);
    assert_eq!(found(Some("x"), 2), COMPOSE_AMBIGUOUS);

    let reading = || {
        let mut delivery = aimed(Some("x"), false, false);
        delivery.windows_listed(&vec!["B".to_string()]).unwrap();
        assert!(delivery.controls_counted(1).unwrap().is_none());
        delivery
    };
    let known = vec![message("2", "m1", "x")];
    assert_eq!(words(reading().draft_read("half", &known)), DRAFT_PRESENT);
    assert_eq!(words(reading().draft_read("", &vec![message("1", "m1", "x")])), NO_BASELINE);

    let writing = || {
        let mut delivery = reading();
        delivery.draft_read("", &known).unwrap();
        delivery
    };
    assert_eq!(words(writing().text_written(0)), DRAFT_REJECTED);
    let mut delivery = writing();
    delivery.text_written(1).unwrap();
    assert_eq!(words(delivery.title_read("A")), DRAFT_CHANGED);
    let mut delivery = writing();
    delivery.text_written(1).unwrap();
    delivery.title_read("B").unwrap();
    assert_eq!(words(delivery.text_read("y")), DRAFT_CHANGED);
    assert_eq!(words(confirmed(false).owner_read(8)), OWNER_CHANGED);
    assert_eq!(words(confirmed(true).owner_read(8)), OWNER_CHANGED);
}

#[test]
fn a_text_is_checked_before_anything_else() {
    let ask = |body, dry_run| SendRequest::new(None, Some("no such room"), body, dry_run, false);
    let long = "😀".repeat(5001);
    for text in ["", " \r\n\t", "synthetic\0text", long.as_str()] {
        assert_eq!(words(ask(Some(text), false)), BAD_TEXT);
        assert!(ask(Some(text), true).is_ok());
    }
    assert_eq!(words(ask(None, false)), BODY_MISSING);
    assert!(ask(None, true).is_ok());
    let whole = "😀".repeat(5000);
    for text in ["한글\n둘째 줄 😀", whole.as_str()] {
        assert!(ask(Some(text), false).is_ok());
    }
}

#[test]
fn a_room_without_a_file_or_key_is_locked() {
    let names = NameTable::default();
    let rows = || Ok(vec![row("1", Some(1), 1_767_225_600)]);
    let read = |place, rows| room_read(place, rows, &room("7", "A"), "account", &names);
    assert!(matches!(read(None, rows()), Ok(RoomRead::Locked)));
    assert!(matches!(read(None, Err(DatabaseFault::Schema)), Ok(RoomRead::Locked)));
    match read(Some(0), rows()) {
        Ok(RoomRead::Messages(messages)) => {
            assert_eq!(messages.len(), 1);
            assert_eq!(messages[0].chat_id, "7");
        }
        _ => panic!("an open room gives its messages"),
    }
    assert_eq!(words(read(Some(0), Ok(vec![None]))), BAD_MESSAGE_ROW);
}
