//! The KakaoTalk databases on Windows: what is asked of them and how their rows become chats and
//! messages. Keys stay in memory.
pub mod native;
pub mod send;

use crate::adapters::SourceError;
use crate::chats::ChatSummary;
use crate::digits::{hex, hex_text, utf16_total, utf16_units};
use crate::kakao::names::NameTable;
use crate::text::{chars_of, is_blank, is_white, lemma_blank_is_all_white, same_text, trimmed};
use crate::time::{is_instant, Timestamp};
use crate::types::RawMessage;
use vstd::prelude::*;

verus! {

/// Lists the rooms.
pub const ROOM_QUERY: &'static str =
    "SELECT CAST(chatId AS TEXT), type, chatRoomTitle, lastUpdatedAt FROM chatRoomList ORDER BY chatId";

/// Lists the messages of a room that were not deleted, oldest first.
pub const MESSAGE_QUERY: &'static str =
    "SELECT CAST(logId AS TEXT), CAST(authorId AS TEXT), message, type, sendAt FROM chatLogs WHERE deleted IS NULL OR deleted=0 ORDER BY sendAt, logId";

/// Lists the users with their names.
pub const NAME_QUERY: &'static str =
    "SELECT CAST(userId AS TEXT), COALESCE(NULLIF(friendNickName,''), nickName) FROM talkUser WHERE linkId=0";

/// The most UTF-16 units that a text may have.
pub const MAX_TEXT_UNITS: u128 = 10_000;

pub const BAD_ROOM_SCHEMA: &'static str =
    "Unsupported Windows chat-list schema; run doctor and check the KakaoTalk version";

pub const BAD_ROOM_ROW: &'static str = "Invalid Windows chat-list row; sync was not completed";

pub const BAD_MESSAGE_SCHEMA: &'static str =
    "Unsupported Windows message schema; sync was not completed";

pub const BAD_MESSAGE_ROW: &'static str = "Invalid Windows message row; sync was not completed";

pub const BAD_MESSAGE_TIME: &'static str = "Invalid Windows message timestamp";

pub const BAD_NAME_SCHEMA: &'static str = "Unsupported Windows contact schema";

pub const BAD_TEXT: &'static str =
    "Text must contain 1–10000 UTF-16 units and no NUL character";

/// The error is the source's, in these words.
pub open spec fn says(error: SourceError, words: Seq<char>) -> bool {
    error matches SourceError::Kakao(text) && text@ == words
}

/// An error of the source, in these words.
pub fn source_error(words: &str) -> (r: SourceError)
    ensures
        says(r, words@),
{
    SourceError::Kakao(words.to_owned())
}

/// How a query failed.
#[derive(Debug, PartialEq, Eq)]
pub enum DatabaseFault {
    /// The query does not fit the tables.
    Schema,
    /// The query could not be run.
    Query(String),
    /// A row does not hold what was asked for.
    Row(String),
}

/// What a failed query is reported as.
pub open spec fn fault_reported(
    error: SourceError,
    fault: DatabaseFault,
    schema_words: Seq<char>,
    row_words: Seq<char>,
) -> bool {
    match fault {
        DatabaseFault::Schema => says(error, schema_words),
        DatabaseFault::Row(_) => says(error, row_words),
        DatabaseFault::Query(words) => error == SourceError::Database(words),
    }
}

fn report_fault(fault: DatabaseFault, schema_words: &str, row_words: &str) -> (r: SourceError)
    ensures
        fault_reported(r, fault, schema_words@, row_words@),
{
    match fault {
        DatabaseFault::Schema => source_error(schema_words),
        DatabaseFault::Row(_) => source_error(row_words),
        DatabaseFault::Query(words) => SourceError::Database(words),
    }
}

/// The statements that unlock a database with a raw key and allow only reading.
pub fn key_pragma(key: &[u8]) -> (r: String)
    ensures
        r@ == "PRAGMA key=\"x'"@ + hex(key@)
            + "'\"; PRAGMA cipher_page_size=4096; PRAGMA query_only=ON;"@,
{
    let mut text: String = "PRAGMA key=\"x'".to_owned();
    text.append(hex_text(key).as_str());
    text.append("'\"; PRAGMA cipher_page_size=4096; PRAGMA query_only=ON;");
    text
}

/// Whether a time is given in milliseconds: as seconds it would lie thousands of years ahead.
pub open spec fn in_millis(value: i64) -> bool {
    value > 100_000_000_000
}

/// The instant that a database time stands for, in seconds or milliseconds since 1970.
pub open spec fn stands_for_instant(value: i64, time: Option<Timestamp>) -> bool {
    if in_millis(value) {
        &&& time is Some <==> value / 1000 <= 8210266876799
        &&& time is Some ==> time->0.unix_seconds() == value / 1000 && time->0.sub_nanos() == (
        value % 1000) * 1_000_000
    } else {
        &&& time is Some <==> is_instant(value, 0)
        &&& time is Some ==> time->0.unix_seconds() == value && time->0.sub_nanos() == 0
    }
}

/// The instant that a database time stands for.
pub fn timestamp(value: i64) -> (r: Option<Timestamp>)
    ensures
        stands_for_instant(value, r),
{
    if value > 100_000_000_000 {
        Timestamp::from_unix_millis(value)
    } else {
        Timestamp::from_unix(value, 0)
    }
}

/// A row of the room list.
#[derive(Debug, PartialEq, Eq)]
pub struct RoomRow {
    pub id: String,
    pub kind: Option<String>,
    pub title: Option<String>,
    pub last_updated_at: Option<i64>,
}

/// What a room is called: its title, or its id where the title is blank.
pub open spec fn room_name(row: RoomRow) -> Seq<char> {
    match row.title {
        Some(title) => if trimmed(title@).len() > 0 {
            title@
        } else {
            "Chat "@ + row.id@
        },
        None => "Chat "@ + row.id@,
    }
}

/// Rooms of two are direct, all others are groups.
pub open spec fn room_kind(row: RoomRow) -> Seq<char> {
    match row.kind {
        Some(kind) => if kind@ == "DirectChat"@ || kind@ == "MemoChat"@ {
            "direct"@
        } else {
            "group"@
        },
        None => "group"@,
    }
}

/// The chat of a row.
pub open spec fn is_room(row: RoomRow, chat: ChatSummary) -> bool {
    &&& chat.chat_id@ == row.id@
    &&& chat.chat_name@ == room_name(row)
    &&& chat.chat_type@ == room_kind(row)
    &&& match row.last_updated_at {
        Some(value) => stands_for_instant(value, chat.last_message_at),
        None => chat.last_message_at is None,
    }
}

/// The chat of a row.
pub fn room_from_row(row: &RoomRow) -> (r: ChatSummary)
    ensures
        is_room(*row, r),
{
    let titled: bool = match &row.title {
        Some(title) => !is_blank(title.as_str()),
        None => false,
    };
    let chat_name: String = if titled {
        match &row.title {
            Some(title) => title.clone(),
            None => String::new(),
        }
    } else {
        let mut name: String = "Chat ".to_owned();
        name.append(row.id.as_str());
        name
    };
    let direct: bool = match &row.kind {
        Some(kind) => same_text(kind.as_str(), "DirectChat") || same_text(
            kind.as_str(),
            "MemoChat",
        ),
        None => false,
    };
    let last_message_at: Option<Timestamp> = match row.last_updated_at {
        Some(value) => timestamp(value),
        None => None,
    };
    ChatSummary {
        chat_id: row.id.clone(),
        chat_name,
        chat_type: if direct {
            "direct".to_owned()
        } else {
            "group".to_owned()
        },
        last_message_at,
    }
}

/// The chats of the room list, in its order. A list that cannot be read is an error, never an
/// empty success.
pub fn read_rooms(rows: Result<Vec<RoomRow>, DatabaseFault>) -> (r: Result<
    Vec<ChatSummary>,
    SourceError,
>)
    ensures
        match rows {
            Ok(rows) => r is Ok && r->Ok_0@.len() == rows@.len() && forall|i: int|
                0 <= i < rows@.len() ==> is_room(#[trigger] rows@[i], r->Ok_0@[i]),
            Err(fault) => r is Err && fault_reported(
                r->Err_0,
                fault,
                BAD_ROOM_SCHEMA@,
                BAD_ROOM_ROW@,
            ),
        },
{
    match rows {
        Ok(rows) => {
            let mut chats: Vec<ChatSummary> = Vec::new();
            for i in 0..rows.len()
                invariant
                    chats.len() == i,
                    forall|j: int| 0 <= j < i ==> is_room(#[trigger] rows@[j], chats@[j]),
            {
                chats.push(room_from_row(&rows[i]));
            }
            Ok(chats)
        },
        Err(fault) => Err(report_fault(fault, BAD_ROOM_SCHEMA, BAD_ROOM_ROW)),
    }
}

/// A row of the user list.
#[derive(Debug, PartialEq, Eq)]
pub struct NameRow {
    pub id: String,
    pub name: Option<String>,
}

/// The names of the users that have one; a later row replaces an earlier.
pub open spec fn named_users(rows: Seq<NameRow>) -> Map<Seq<char>, Seq<char>>
    decreases rows.len(),
{
    if rows.len() == 0 {
        Map::empty()
    } else {
        let front = named_users(rows.drop_last());
        match rows.last().name {
            Some(name) => if name@.len() > 0 {
                front.insert(rows.last().id@, name@)
            } else {
                front
            },
            None => front,
        }
    }
}

/// The names of the users that have one.
pub fn read_names(rows: Result<Vec<NameRow>, DatabaseFault>) -> (r: Result<NameTable, SourceError>)
    ensures
        match rows {
            Ok(rows) => r is Ok && r->Ok_0@ == named_users(rows@),
            Err(fault) => r is Err && match fault {
                DatabaseFault::Schema => says(r->Err_0, BAD_NAME_SCHEMA@),
                DatabaseFault::Row(words) => r->Err_0 == SourceError::Database(words),
                DatabaseFault::Query(words) => r->Err_0 == SourceError::Database(words),
            },
        },
{
    match rows {
        Ok(rows) => {
            let mut names: NameTable = NameTable::default();
            assert(rows@.take(0) =~= Seq::<NameRow>::empty());
            for i in 0..rows.len()
                invariant
                    names@ == named_users(rows@.take(i as int)),
            {
                assert(rows@.take(i + 1).drop_last() =~= rows@.take(i as int));
                match &rows[i].name {
                    Some(name) => {
                        if !name.as_str().is_empty() {
                            names.insert(rows[i].id.clone(), name.clone());
                        }
                    },
                    None => {},
                }
            }
            assert(rows@.take(rows@.len() as int) =~= rows@);
            Ok(names)
        },
        Err(fault) => match fault {
            DatabaseFault::Schema => Err(source_error(BAD_NAME_SCHEMA)),
            DatabaseFault::Row(words) => Err(SourceError::Database(words)),
            DatabaseFault::Query(words) => Err(SourceError::Database(words)),
        },
    }
}

/// A row of a room's messages.
#[derive(Debug, PartialEq, Eq)]
pub struct MessageRow {
    pub id: String,
    pub sender: String,
    pub text: Option<String>,
    pub kind: Option<i64>,
    pub sent_at: i64,
}

/// What the number of a message kind stands for.
pub open spec fn kind_name(kind: Option<i64>) -> Seq<char> {
    match kind {
        Some(1) => "text"@,
        Some(2) => "image"@,
        Some(3) => "video"@,
        Some(5) => "audio"@,
        Some(18) => "file"@,
        Some(26) => "reply"@,
        _ => "other"@,
    }
}

/// What the number of a message kind stands for.
pub fn message_kind(kind: Option<i64>) -> (r: &'static str)
    ensures
        r@ == kind_name(kind),
{
    match kind {
        Some(1) => "text",
        Some(2) => "image",
        Some(3) => "video",
        Some(5) => "audio",
        Some(18) => "file",
        Some(26) => "reply",
        _ => "other",
    }
}

/// Who a sender is called: the name, or the id where there is none.
pub open spec fn sender_name(names: Map<Seq<char>, Seq<char>>, sender: Seq<char>) -> Seq<char> {
    if names.contains_key(sender) {
        names[sender]
    } else {
        "User "@ + sender
    }
}

/// The message of a row.
pub open spec fn is_message(
    row: MessageRow,
    room: ChatSummary,
    account_hash: Seq<char>,
    names: Map<Seq<char>, Seq<char>>,
    m: RawMessage,
) -> bool {
    &&& m.account_hash@ == account_hash
    &&& m.chat_id@ == room.chat_id@
    &&& m.chat_name@ == room.chat_name@
    &&& m.chat_type@ == room.chat_type@
    &&& m.message_id@ == row.id@
    &&& m.sender_id@ == row.sender@
    &&& m.sender_nickname@ == sender_name(names, row.sender@)
    &&& stands_for_instant(row.sent_at, Some(m.timestamp))
    &&& m.text@ == match row.text {
        Some(text) => text@,
        None => Seq::empty(),
    }
    &&& m.message_type@ == kind_name(row.kind)
    &&& m.reply_to_message_id is None
}

fn message_from_row(
    row: &MessageRow,
    time: Timestamp,
    room: &ChatSummary,
    account_hash: &str,
    names: &NameTable,
) -> (m: RawMessage)
    requires
        stands_for_instant(row.sent_at, Some(time)),
    ensures
        is_message(*row, *room, account_hash@, names@, m),
{
    let nickname: String = match names.get(row.sender.as_str()) {
        Some(name) => name,
        None => {
            let mut name: String = "User ".to_owned();
            name.append(row.sender.as_str());
            name
        },
    };
    let text: String = match &row.text {
        Some(text) => text.clone(),
        None => String::new(),
    };
    assert(row.text is None ==> text@ =~= Seq::<char>::empty());
    RawMessage {
        account_hash: account_hash.to_owned(),
        chat_id: room.chat_id.clone(),
        chat_name: room.chat_name.clone(),
        chat_type: room.chat_type.clone(),
        message_id: row.id.clone(),
        sender_id: row.sender.clone(),
        sender_nickname: nickname,
        timestamp: time,
        text,
        message_type: message_kind(row.kind).to_owned(),
        reply_to_message_id: None,
    }
}

/// The database time of a row stands for an instant.
pub open spec fn has_time(value: i64) -> bool {
    if in_millis(value) {
        value / 1000 <= 8210266876799
    } else {
        is_instant(value, 0)
    }
}

/// The row could be read and its time stands for an instant.
pub open spec fn is_whole(row: Option<MessageRow>) -> bool {
    row is Some && has_time(row->0.sent_at)
}

/// What comes of the rows of a room: a message of the room for each of them, in their order, or
/// the error of the first row that cannot be used, or that of the database.
pub open spec fn gives_messages(
    source: Result<Vec<Option<MessageRow>>, DatabaseFault>,
    room: ChatSummary,
    account_hash: Seq<char>,
    names: Map<Seq<char>, Seq<char>>,
    r: Result<Vec<RawMessage>, SourceError>,
) -> bool {
    match source {
        Ok(rows) => match r {
            Ok(messages) => messages@.len() == rows@.len() && forall|i: int|
                0 <= i < rows@.len() ==> is_whole(#[trigger] rows@[i]) && is_message(
                    rows@[i]->0,
                    room,
                    account_hash,
                    names,
                    messages@[i],
                ),
            Err(error) => exists|k: int|
                {
                    &&& 0 <= k < rows@.len()
                    &&& forall|i: int| 0 <= i < k ==> is_whole(#[trigger] rows@[i])
                    &&& !is_whole(#[trigger] rows@[k])
                    &&& says(
                        error,
                        if rows@[k] is Some {
                            BAD_MESSAGE_TIME@
                        } else {
                            BAD_MESSAGE_ROW@
                        },
                    )
                },
        },
        Err(fault) => r is Err && fault_reported(
            r->Err_0,
            fault,
            BAD_MESSAGE_SCHEMA@,
            BAD_MESSAGE_ROW@,
        ),
    }
}

/// The messages of a room, in the order of its rows. One row that cannot be read or has no valid
/// time spoils the room, and the first such row says why: a sync is complete or it fails.
pub fn read_messages(
    source: Result<Vec<Option<MessageRow>>, DatabaseFault>,
    room: &ChatSummary,
    account_hash: &str,
    names: &NameTable,
) -> (r: Result<Vec<RawMessage>, SourceError>)
    ensures
        gives_messages(source, *room, account_hash@, names@, r),
{
    match source {
        Ok(rows) => {
            let mut messages: Vec<RawMessage> = Vec::new();
            for i in 0..rows.len()
                invariant
                    source == Ok::<Vec<Option<MessageRow>>, DatabaseFault>(rows),
                    messages.len() == i,
                    forall|j: int|
                        0 <= j < i ==> is_whole(#[trigger] rows@[j]) && is_message(
                            rows@[j]->0,
                            *room,
                            account_hash@,
                            names@,
                            messages@[j],
                        ),
            {
                match &rows[i] {
                    Some(row) => match timestamp(row.sent_at) {
                        Some(time) => {
                            messages.push(message_from_row(row, time, room, account_hash, names));
                        },
                        None => {
                            assert(!is_whole(rows@[i as int]));
                            return Err(source_error(BAD_MESSAGE_TIME));
                        },
                    },
                    None => {
                        assert(!is_whole(rows@[i as int]));
                        return Err(source_error(BAD_MESSAGE_ROW));
                    },
                }
            }
            Ok(messages)
        },
        Err(fault) => Err(report_fault(fault, BAD_MESSAGE_SCHEMA, BAD_MESSAGE_ROW)),
    }
}

/// A text that may be sent: not blank, no NUL, and not too long.
pub open spec fn is_sendable(text: Seq<char>) -> bool {
    &&& trimmed(text).len() > 0
    &&& !text.contains('\0')
    &&& utf16_total(text) <= MAX_TEXT_UNITS
}

/// Checks a text before anything is done with it.
pub fn validate_text(text: &str) -> (r: Result<(), SourceError>)
    ensures
        r is Ok <==> is_sendable(text@),
        r is Err ==> says(r->Err_0, BAD_TEXT@),
{
    if is_blank(text) {
        return Err(source_error(BAD_TEXT));
    }
    let chars: Vec<char> = chars_of(text);
    for i in 0..chars.len()
        invariant
            chars@ == text@,
            forall|j: int| 0 <= j < i ==> chars@[j] != '\0',
    {
        if chars[i] == '\0' {
            assert(text@[i as int] == '\0');
            return Err(source_error(BAD_TEXT));
        }
    }
    if utf16_units(text) > MAX_TEXT_UNITS {
        return Err(source_error(BAD_TEXT));
    }
    Ok(())
}

/// The chat of a row is direct exactly where the row calls itself a direct or a memo chat; every
/// other row, such as one of several members or one without a kind, is a group.
pub proof fn lemma_only_direct_and_memo_chats_are_direct(row: RoomRow, chat: ChatSummary)
    requires
        is_room(row, chat),
    ensures
        chat.chat_type@ == "direct"@ <==> row.kind is Some && (row.kind->0@ == "DirectChat"@
            || row.kind->0@ == "MemoChat"@),
        chat.chat_type@ != "direct"@ ==> chat.chat_type@ == "group"@,
        chat.chat_type@ == "group"@ <==> !(row.kind is Some && (row.kind->0@ == "DirectChat"@
            || row.kind->0@ == "MemoChat"@)),
        row.kind is Some && row.kind->0@ == "MultiChat"@ ==> chat.chat_type@ == "group"@,
        room_kind(row) == "direct"@ <==> row.kind is Some && (row.kind->0@ == "DirectChat"@
            || row.kind->0@ == "MemoChat"@),
        room_kind(row) == "direct"@ || room_kind(row) == "group"@,
{
    reveal_strlit("direct");
    reveal_strlit("group");
    reveal_strlit("DirectChat");
    reveal_strlit("MemoChat");
    reveal_strlit("MultiChat");
    assert("direct"@.len() != "group"@.len());
    assert("MultiChat"@.len() != "DirectChat"@.len());
    assert("MultiChat"@.len() != "MemoChat"@.len());
}

/// A room is called by its title where anything can be seen of it, else by its id; it keeps its
/// id, and without a time it has none.
pub proof fn lemma_room_shows_title_or_id(row: RoomRow, chat: ChatSummary)
    requires
        is_room(row, chat),
    ensures
        chat.chat_id@ == row.id@,
        (row.title is Some && exists|i: int|
            0 <= i < row.title->0@.len() && !is_white(#[trigger] row.title->0@[i]))
            ==> chat.chat_name@ == row.title->0@,
        !(row.title is Some && exists|i: int|
            0 <= i < row.title->0@.len() && !is_white(#[trigger] row.title->0@[i]))
            ==> chat.chat_name@.len() == 5 + row.id@.len() && chat.chat_name@.skip(5) == row.id@
            && chat.chat_name@.take(5) == seq!['C', 'h', 'a', 't', ' '],
        row.last_updated_at is None ==> chat.last_message_at is None,
{
    reveal_strlit("Chat ");
    if row.title is Some {
        lemma_blank_is_all_white(row.title->0@);
    }
    let named = "Chat "@ + row.id@;
    assert(named.skip(5) =~= row.id@);
    assert(named.take(5) =~= seq!['C', 'h', 'a', 't', ' ']);
}

/// A database time up to a hundred thousand million counts seconds, a greater one milliseconds:
/// the instant is that many of them after the start of 1970, to the millisecond.
pub proof fn lemma_database_time(value: i64, time: Option<Timestamp>)
    requires
        stands_for_instant(value, time),
    ensures
        time is Some && value <= 100_000_000_000 ==> time->0.unix_seconds() == value
            && time->0.sub_nanos() == 0,
        time is Some && value > 100_000_000_000 ==> time->0.unix_seconds() * 1000
            + time->0.sub_nanos() / 1_000_000 == value && time->0.sub_nanos() % 1_000_000 == 0
            && time->0.sub_nanos() < 1_000_000_000,
        -62_135_596_800 <= value <= 4_102_444_800_000 ==> time is Some,
{
}

/// The time of a room is that of its last update.
pub proof fn lemma_room_time(row: RoomRow, chat: ChatSummary)
    requires
        is_room(row, chat),
        row.last_updated_at is Some,
    ensures
        chat.last_message_at is Some && row.last_updated_at->0 <= 100_000_000_000
            ==> chat.last_message_at->0.unix_seconds() == row.last_updated_at->0,
        chat.last_message_at is Some && row.last_updated_at->0 > 100_000_000_000
            ==> chat.last_message_at->0.unix_seconds() == row.last_updated_at->0 / 1000,
        0 <= row.last_updated_at->0 <= 4_102_444_800_000 ==> chat.last_message_at is Some,
{
}

/// A row says how its user is called.
pub open spec fn names_user(row: NameRow, user: Seq<char>) -> bool {
    row.id@ == user && row.name is Some && row.name->0@.len() > 0
}

/// A user is called what the last row with a name says; a user whom no row names has no name.
pub proof fn lemma_last_name_counts(rows: Seq<NameRow>, user: Seq<char>, k: int)
    ensures
        0 <= k < rows.len() && names_user(rows[k], user) && (forall|j: int|
            k < j < rows.len() ==> !names_user(#[trigger] rows[j], user)) ==> named_users(
            rows,
        ).contains_key(user) && named_users(rows)[user] == rows[k].name->0@,
        (forall|j: int| 0 <= j < rows.len() ==> !names_user(#[trigger] rows[j], user))
            ==> !named_users(rows).contains_key(user),
    decreases rows.len(),
{
    if rows.len() > 0 {
        let front = rows.drop_last();
        let last = rows[rows.len() - 1];
        lemma_last_name_counts(front, user, k);
        if 0 <= k < rows.len() && names_user(rows[k], user) && (forall|j: int|
            k < j < rows.len() ==> !names_user(#[trigger] rows[j], user)) {
            if k < front.len() {
                assert(!names_user(last, user));
                assert forall|j: int| k < j < front.len() implies !names_user(
                    #[trigger] front[j],
                    user,
                ) by {
                    assert(!names_user(rows[j], user));
                }
            }
        }
        if forall|j: int| 0 <= j < rows.len() ==> !names_user(#[trigger] rows[j], user) {
            assert(!names_user(last, user));
            assert forall|j: int| 0 <= j < front.len() implies !names_user(
                #[trigger] front[j],
                user,
            ) by {
                assert(!names_user(rows[j], user));
            }
        }
    }
}

/// A message keeps what its row says and belongs to its room: the ids, the whole text, the time,
/// the room's name and kind.
pub proof fn lemma_message_keeps_its_row(
    row: MessageRow,
    room: ChatSummary,
    account_hash: Seq<char>,
    names: Map<Seq<char>, Seq<char>>,
    m: RawMessage,
)
    requires
        is_message(row, room, account_hash, names, m),
    ensures
        m.account_hash@ == account_hash,
        m.chat_id@ == room.chat_id@,
        m.chat_name@ == room.chat_name@,
        m.chat_type@ == room.chat_type@,
        m.message_id@ == row.id@,
        m.sender_id@ == row.sender@,
        row.text is Some ==> m.text@ == row.text->0@,
        row.text is None ==> m.text@.len() == 0,
        m.reply_to_message_id is None,
        row.sent_at <= 100_000_000_000 ==> m.timestamp.unix_seconds() == row.sent_at
            && m.timestamp.sub_nanos() == 0,
        row.sent_at > 100_000_000_000 ==> m.timestamp.unix_seconds() * 1000
            + m.timestamp.sub_nanos() / 1_000_000 == row.sent_at,
        names.contains_key(row.sender@) ==> m.sender_nickname@ == names[row.sender@],
        !names.contains_key(row.sender@) ==> m.sender_nickname@.len() == 5 + row.sender@.len()
            && m.sender_nickname@.skip(5) == row.sender@ && m.sender_nickname@.take(5)
            == seq!['U', 's', 'e', 'r', ' '],
        m.message_type@ == "text"@ <==> row.kind == Some(1i64),
        m.message_type@ == "image"@ <==> row.kind == Some(2i64),
        m.message_type@ == "video"@ <==> row.kind == Some(3i64),
        m.message_type@ == "audio"@ <==> row.kind == Some(5i64),
        m.message_type@ == "file"@ <==> row.kind == Some(18i64),
        m.message_type@ == "reply"@ <==> row.kind == Some(26i64),
        m.message_type@ == "other"@ <==> !(row.kind is Some && (row.kind->0 == 1 || row.kind->0
            == 2 || row.kind->0 == 3 || row.kind->0 == 5 || row.kind->0 == 18 || row.kind->0
            == 26)),
{
    reveal_strlit("User ");
    reveal_strlit("text");
    reveal_strlit("image");
    reveal_strlit("video");
    reveal_strlit("audio");
    reveal_strlit("file");
    reveal_strlit("reply");
    reveal_strlit("other");
    let named = "User "@ + row.sender@;
    assert(named.skip(5) =~= row.sender@);
    assert(named.take(5) =~= seq!['U', 's', 'e', 'r', ' ']);
    assert("text"@[0] == 't' && "file"@[0] == 'f' && "image"@[0] == 'i' && "video"@[0] == 'v'
        && "audio"@[0] == 'a' && "reply"@[0] == 'r' && "other"@[0] == 'o');
}

/// A room is read whole or not at all: there are messages exactly where every row could be read
/// and has a time, one for each row in the order of the rows.
pub proof fn lemma_room_is_read_whole_or_not_at_all(
    rows: Vec<Option<MessageRow>>,
    room: ChatSummary,
    account_hash: Seq<char>,
    names: Map<Seq<char>, Seq<char>>,
    r: Result<Vec<RawMessage>, SourceError>,
)
    requires
        gives_messages(Ok(rows), room, account_hash, names, r),
    ensures
        r is Ok ==> r->Ok_0@.len() == rows@.len() && forall|i: int|
            0 <= i < rows@.len() ==> (#[trigger] rows@[i]) is Some && r->Ok_0@[i].message_id@
                == rows@[i]->0.id@ && r->Ok_0@[i].sender_id@ == rows@[i]->0.sender@,
        (exists|i: int| 0 <= i < rows@.len() && (#[trigger] rows@[i]) is None) ==> r is Err,
        (forall|i: int|
            0 <= i < rows@.len() ==> (#[trigger] rows@[i]) is Some && 0 <= rows@[i]->0.sent_at
                <= 4_102_444_800_000) ==> r is Ok,
{
    if r is Ok {
        assert forall|i: int| 0 <= i < rows@.len() implies (#[trigger] rows@[i]) is Some
            && r->Ok_0@[i].message_id@ == rows@[i]->0.id@ && r->Ok_0@[i].sender_id@
            == rows@[i]->0.sender@ by {
            assert(is_whole(rows@[i]));
        }
    }
}

/// A text may be sent exactly where something of it can be seen, it holds no NUL, and it takes at
/// most ten thousand UTF-16 units.
pub proof fn lemma_what_may_be_sent(text: Seq<char>)
    ensures
        is_sendable(text) <==> {
            &&& exists|i: int| 0 <= i < text.len() && !is_white(#[trigger] text[i])
            &&& forall|i: int| 0 <= i < text.len() ==> (#[trigger] text[i]) != '\0'
            &&& utf16_total(text) <= 10_000
        },
{
    lemma_blank_is_all_white(text);
    if text.contains('\0') {
        assert(text[text.index_of('\0')] == '\0');
    }
}

/// A failed query is told apart: tables of another shape, a row of another shape, and a database
/// that cannot be read, whose own words are kept.
pub proof fn lemma_fault_is_told_apart(
    error: SourceError,
    fault: DatabaseFault,
    schema_words: Seq<char>,
    row_words: Seq<char>,
)
    requires
        fault_reported(error, fault, schema_words, row_words),
    ensures
        fault is Query <==> error is Database,
        fault is Query ==> error->Database_0 == fault->Query_0,
        fault is Schema ==> error is Kakao && error->Kakao_0@ == schema_words,
        fault is Row ==> error is Kakao && error->Kakao_0@ == row_words,
{
}

/// What is made of a row of the room list: the room under its id, direct or a group as its kind
/// says.
pub proof fn lemma_room_of_a_row(row: RoomRow, chat: ChatSummary)
    requires
        call_ensures(room_from_row, (&row,), chat),
    ensures
        chat.chat_id@ == row.id@,
        chat.chat_type@ == "direct"@ <==> row.kind is Some && (row.kind->0@ == "DirectChat"@
            || row.kind->0@ == "MemoChat"@),
        chat.chat_type@ == "direct"@ || chat.chat_type@ == "group"@,
        row.last_updated_at is None ==> chat.last_message_at is None,
{
    lemma_only_direct_and_memo_chats_are_direct(row, chat);
}

/// A list of rooms or of names that cannot be read is an error and never an empty list; one that
/// can be read gives each of its rooms, in their order.
pub proof fn lemma_unreadable_lists_are_errors(
    rows: Result<Vec<RoomRow>, DatabaseFault>,
    chats: Result<Vec<ChatSummary>, SourceError>,
    people: Result<Vec<NameRow>, DatabaseFault>,
    names: Result<NameTable, SourceError>,
)
    requires
        call_ensures(read_rooms, (rows,), chats),
        call_ensures(read_names, (people,), names),
    ensures
        rows is Ok <==> chats is Ok,
        rows is Ok ==> chats->Ok_0@.len() == rows->Ok_0@.len() && forall|i: int|
            0 <= i < chats->Ok_0@.len() ==> (#[trigger] chats->Ok_0@[i]).chat_id@
                == rows->Ok_0@[i].id@,
        people is Ok <==> names is Ok,
{
    if rows is Ok {
        assert forall|i: int| 0 <= i < chats->Ok_0@.len() implies (
        #[trigger] chats->Ok_0@[i]).chat_id@ == rows->Ok_0@[i].id@ by {
            assert(is_room(rows->Ok_0@[i], chats->Ok_0@[i]));
        }
    }
}

/// A database is unlocked with the whole key, in hexadecimal, and only ever read.
pub proof fn lemma_database_is_only_read(key: &[u8], r: String)
    requires
        call_ensures(key_pragma, (key,), r),
    ensures
        r@.subrange(14, 14 + 2 * key@.len() as int) == hex(key@),
        r@.skip(r@.len() - 55) == "'\"; PRAGMA cipher_page_size=4096; PRAGMA query_only=ON;"@,
{
    reveal_strlit("PRAGMA key=\"x'");
    reveal_strlit("'\"; PRAGMA cipher_page_size=4096; PRAGMA query_only=ON;");
    assert("PRAGMA key=\"x'"@.len() == 14);
    let tail = "'\"; PRAGMA cipher_page_size=4096; PRAGMA query_only=ON;"@;
    assert(hex(key@).len() == 2 * key@.len());
    assert(r@.subrange(14, 14 + 2 * key@.len() as int) =~= hex(key@));
    assert(r@.skip(r@.len() - 55) =~= tail);
}

} // verus!
