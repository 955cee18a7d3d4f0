//! What the commands decide before, between and after their work: whether to go on, how a send
//! is carried out, what a sync rebuilds, and what is reported.
use crate::adapters::SourceCoverage;
use crate::cli::{is_valid_send, SendArguments, WatchArguments, DEFAULT_FOCUS_WAIT};
use crate::digits::{char_count, decimal, decimal_text, size_text};
use crate::order::{is_sorted_set_of, sorted_set};
use crate::reply::REPLY_FOCUS_WAIT_SECS;
use crate::session::{
    chosen_format, effective_watch_format, PollArchiveState, WatchOptions, WatchOutputFormat,
};
use crate::text::{chars_of, lossy_text, string_of, texts, trim, trimmed, utf8_lossy};
use crate::time::Timestamp;
use crate::types::optional_text;
use vstd::prelude::*;

verus! {

/// Why a command does not go on.
#[derive(Debug, PartialEq, Eq)]
pub enum Refusal {
    ReplyNeedsText,
    ReplyNeedsChat,
    PolicyNotAccepted,
    InputNotTerminal,
    OutputNotTerminal,
    EmptyMessage,
    TargetMissing,
    ChatNotArchived(String),
    WipeNotConfirmed,
    SourceIncomplete(usize),
}

impl Refusal {
    /// The refusal in words.
    pub open spec fn text(self) -> Seq<char> {
        match self {
            Refusal::ReplyNeedsText => "reply mode is only available with --format text"@,
            Refusal::ReplyNeedsChat => "reply mode requires --chat or --select"@,
            Refusal::PolicyNotAccepted => "refusing to continue without --accept-use-policy; read ACCEPTABLE_USE_POLICY.md and DISCLAIMER.md"@,
            Refusal::InputNotTerminal => "reply mode requires an interactive terminal; piped or redirected input is not sent"@,
            Refusal::OutputNotTerminal => "reply mode requires an interactive output terminal"@,
            Refusal::EmptyMessage => "refusing to send an empty message"@,
            Refusal::TargetMissing => "pass --room or --chat"@,
            Refusal::ChatNotArchived(chat) => "no chat "@ + chat@
                + " in the archive; run sync first"@,
            Refusal::WipeNotConfirmed => "refusing to wipe semantic index without --yes"@,
            Refusal::SourceIncomplete(rooms) => "refusing to reconcile deletions: "@ + decimal(
                rooms as nat,
            ) + " room(s) could not be read"@,
        }
    }

    /// The refusal in words.
    pub fn message(&self) -> (r: String)
        ensures
            r@ == self.text(),
    {
        match self {
            Refusal::ReplyNeedsText => "reply mode is only available with --format text".to_owned(),
            Refusal::ReplyNeedsChat => "reply mode requires --chat or --select".to_owned(),
            Refusal::PolicyNotAccepted => "refusing to continue without --accept-use-policy; read ACCEPTABLE_USE_POLICY.md and DISCLAIMER.md".to_owned(),
            Refusal::InputNotTerminal => "reply mode requires an interactive terminal; piped or redirected input is not sent".to_owned(),
            Refusal::OutputNotTerminal => "reply mode requires an interactive output terminal".to_owned(),
            Refusal::EmptyMessage => "refusing to send an empty message".to_owned(),
            Refusal::TargetMissing => "pass --room or --chat".to_owned(),
            Refusal::ChatNotArchived(chat) => {
                let mut text: String = "no chat ".to_owned();
                text.append(chat.as_str());
                text.append(" in the archive; run sync first");
                text
            },
            Refusal::WipeNotConfirmed => "refusing to wipe semantic index without --yes".to_owned(),
            Refusal::SourceIncomplete(rooms) => {
                let mut text: String = "refusing to reconcile deletions: ".to_owned();
                text.append(size_text(*rooms).as_str());
                text.append(" room(s) could not be read");
                text
            },
        }
    }
}

/// Why a watch does not start. Replies need text output, a chat, the accepted policy and a
/// terminal at both ends; the first that is missing is the reason.
pub open spec fn watch_refusal(
    a: WatchArguments,
    stdin_terminal: bool,
    stdout_terminal: bool,
) -> Option<Refusal> {
    if !a.reply {
        None
    } else if chosen_format(a.select || a.reply, a.format) != WatchOutputFormat::Text {
        Some(Refusal::ReplyNeedsText)
    } else if a.chat is None && !a.select {
        Some(Refusal::ReplyNeedsChat)
    } else if !a.accept_use_policy {
        Some(Refusal::PolicyNotAccepted)
    } else if !stdin_terminal {
        Some(Refusal::InputNotTerminal)
    } else if !stdout_terminal {
        Some(Refusal::OutputNotTerminal)
    } else {
        None
    }
}

/// Decides whether a watch starts, and in which format it writes.
pub fn prepare_watch(a: &WatchArguments, stdin_terminal: bool, stdout_terminal: bool) -> (r: Result<
    WatchOutputFormat,
    Refusal,
>)
    ensures
        r == match watch_refusal(*a, stdin_terminal, stdout_terminal) {
            Some(refusal) => Err::<WatchOutputFormat, _>(refusal),
            None => Ok(chosen_format(a.select || a.reply, a.format)),
        },
{
    let format: WatchOutputFormat = effective_watch_format(a.select || a.reply, a.format);
    if a.reply {
        match format {
            WatchOutputFormat::Text => {},
            WatchOutputFormat::Jsonl => {
                return Err(Refusal::ReplyNeedsText);
            },
        }
        if a.chat.is_none() && !a.select {
            return Err(Refusal::ReplyNeedsChat);
        }
        if !a.accept_use_policy {
            return Err(Refusal::PolicyNotAccepted);
        }
        if !stdin_terminal {
            return Err(Refusal::InputNotTerminal);
        }
        if !stdout_terminal {
            return Err(Refusal::OutputNotTerminal);
        }
    }
    Ok(format)
}

/// What a watch is asked to do, once its format and its chat are settled. A watch that polls once
/// makes one poll, whatever number was given.
pub fn watch_options(a: &WatchArguments, format: WatchOutputFormat, chat_id: Option<String>) -> (r:
    WatchOptions)
    ensures
        r.format == format,
        r.chat_id == chat_id,
        r.replay_existing == a.replay_existing,
        r.tail == a.tail as usize,
        r.max_polls == if a.once {
            Some(1u64)
        } else {
            a.max_polls
        },
{
    WatchOptions {
        format,
        chat_id,
        replay_existing: a.replay_existing,
        tail: a.tail as usize,
        max_polls: if a.once {
            Some(1)
        } else {
            a.max_polls
        },
    }
}

/// Decides whether the semantic index may be wiped.
pub fn check_wipe(yes: bool) -> (r: Result<(), Refusal>)
    ensures
        r == if yes {
            Ok::<(), _>(())
        } else {
            Err(Refusal::WipeNotConfirmed)
        },
{
    if yes {
        Ok(())
    } else {
        Err(Refusal::WipeNotConfirmed)
    }
}

/// How a send starts.
#[derive(Debug, Clone, Copy, PartialEq, Eq, Structural)]
pub enum SendOpening {
    ListWindows,
    ListRooms { limit: usize },
    /// No text is needed: the room is only resolved, or an image is sent.
    WithoutBody,
    GivenBody,
    ReadBody,
}

/// How a send starts: listing needs nothing more; anything that affects a message needs the
/// accepted policy; a text that was not given is read.
pub open spec fn send_opening(a: SendArguments) -> Result<SendOpening, Refusal> {
    if a.list_windows {
        Ok(SendOpening::ListWindows)
    } else if a.list_rooms {
        Ok(SendOpening::ListRooms { limit: a.limit })
    } else if !a.dry_run && !a.accept_use_policy {
        Err(Refusal::PolicyNotAccepted)
    } else if a.dry_run || a.image is Some {
        Ok(SendOpening::WithoutBody)
    } else if a.text is Some {
        Ok(SendOpening::GivenBody)
    } else {
        Ok(SendOpening::ReadBody)
    }
}

/// Decides how a send starts.
pub fn open_send(a: &SendArguments) -> (r: Result<SendOpening, Refusal>)
    ensures
        r == send_opening(*a),
{
    if a.list_windows {
        return Ok(SendOpening::ListWindows);
    }
    if a.list_rooms {
        return Ok(SendOpening::ListRooms { limit: a.limit });
    }
    if !a.dry_run && !a.accept_use_policy {
        return Err(Refusal::PolicyNotAccepted);
    }
    if a.dry_run || a.image.is_some() {
        Ok(SendOpening::WithoutBody)
    } else if a.text.is_some() {
        Ok(SendOpening::GivenBody)
    } else {
        Ok(SendOpening::ReadBody)
    }
}

/// A text without the line feeds at its end.
pub open spec fn without_last_feeds(s: Seq<char>) -> Seq<char>
    decreases s.len(),
{
    if s.len() > 0 && s.last() == '\n' {
        without_last_feeds(s.drop_last())
    } else {
        s
    }
}

/// The text to send: what was given without the line feeds at its end, which must leave
/// something.
pub fn send_body(text: &str) -> (r: Result<String, Refusal>)
    ensures
        match r {
            Ok(body) => body@ == without_last_feeds(text@) && body@.len() > 0,
            Err(refusal) => refusal == Refusal::EmptyMessage && without_last_feeds(text@).len()
                == 0,
        },
{
    let chars: Vec<char> = chars_of(text);
    let mut end: usize = chars.len();
    assert(chars@.take(end as int) =~= chars@);
    while end > 0 && chars[end - 1] == '\n'
        invariant
            end <= chars.len(),
            without_last_feeds(chars@.take(end as int)) == without_last_feeds(chars@),
        decreases end,
    {
        assert(chars@.take(end as int).drop_last() =~= chars@.take(end - 1));
        end = end - 1;
    }
    assert(without_last_feeds(chars@.take(end as int)) == chars@.take(end as int));
    if end == 0 {
        return Err(Refusal::EmptyMessage);
    }
    let front: &[char] = vstd::slice::slice_subrange(chars.as_slice(), 0, end);
    assert(front@ =~= chars@.take(end as int));
    Ok(string_of(front))
}

/// Whom a send addresses.
#[derive(Debug, PartialEq, Eq)]
pub enum SendTarget {
    Chat(String),
    Room(String),
}

/// Whom a send addresses: the chat where an id is given, else the room of a name.
pub fn send_target(a: &SendArguments) -> (r: Result<SendTarget, Refusal>)
    ensures
        r == match (a.chat, a.room) {
            (Some(chat), _) => Ok::<_, Refusal>(SendTarget::Chat(chat)),
            (None, Some(room)) => Ok(SendTarget::Room(room)),
            (None, None) => Err(Refusal::TargetMissing),
        },
{
    match &a.chat {
        Some(chat) => Ok(SendTarget::Chat(chat.clone())),
        None => match &a.room {
            Some(room) => Ok(SendTarget::Room(room.clone())),
            None => Err(Refusal::TargetMissing),
        },
    }
}

/// What the archive knows of a chat.
#[derive(Debug, PartialEq, Eq)]
pub struct ArchivedChat {
    pub name: String,
    pub last_message_at: Timestamp,
}

/// A room as it is looked for in the chat list: by its name and, where that is known, by the time
/// of its last message, which tells rooms of one name apart.
#[derive(Debug, PartialEq, Eq)]
pub struct RoomTarget {
    pub name: String,
    pub last_message_at: Option<Timestamp>,
}

/// The room that a send looks for. `found` is what the archive knows of a chat that is addressed
/// by its id; a room that is addressed by its name is looked for by that alone.
pub fn room_target(target: SendTarget, found: Option<ArchivedChat>) -> (r: Result<
    RoomTarget,
    Refusal,
>)
    ensures
        r == match (target, found) {
            (SendTarget::Room(name), _) => Ok::<_, Refusal>(
                RoomTarget { name, last_message_at: None },
            ),
            (SendTarget::Chat(_), Some(chat)) => Ok(
                RoomTarget { name: chat.name, last_message_at: Some(chat.last_message_at) },
            ),
            (SendTarget::Chat(id), None) => Err(Refusal::ChatNotArchived(id)),
        },
{
    match target {
        SendTarget::Room(name) => Ok(RoomTarget { name, last_message_at: None }),
        SendTarget::Chat(id) => match found {
            Some(chat) => Ok(
                RoomTarget { name: chat.name, last_message_at: Some(chat.last_message_at) },
            ),
            None => Err(Refusal::ChatNotArchived(id)),
        },
    }
}

/// What a send does.
#[derive(Debug, Clone, Copy, PartialEq, Eq, Structural)]
pub enum SendMode {
    /// Text to a room that is open, without anything visible.
    Background,
    /// Find the room and send nothing.
    Resolve,
    Image,
    /// Leave the text in the compose box.
    Draft,
    Text,
}

/// What a send does.
pub open spec fn mode_of(a: SendArguments) -> SendMode {
    if a.background_only {
        SendMode::Background
    } else if a.dry_run {
        SendMode::Resolve
    } else if a.image is Some {
        SendMode::Image
    } else if a.draft {
        SendMode::Draft
    } else {
        SendMode::Text
    }
}

/// What a send does.
pub fn send_mode(a: &SendArguments) -> (r: SendMode)
    ensures
        r == mode_of(*a),
{
    if a.background_only {
        SendMode::Background
    } else if a.dry_run {
        SendMode::Resolve
    } else if a.image.is_some() {
        SendMode::Image
    } else if a.draft {
        SendMode::Draft
    } else {
        SendMode::Text
    }
}

/// Every mode that delivers or stages text has one: a valid send that is not a listing opens with
/// a text exactly in those modes.
pub proof fn lemma_text_modes_have_text(a: SendArguments)
    requires
        is_valid_send(a),
        !a.list_windows,
        !a.list_rooms,
        send_opening(a) is Ok,
    ensures
        send_opening(a)->Ok_0 == SendOpening::WithoutBody <==> mode_of(a) == SendMode::Resolve
            || mode_of(a) == SendMode::Image,
{
}

/// Nothing that affects a message happens without the accepted policy.
pub proof fn lemma_policy_guards_messages(a: SendArguments)
    requires
        is_valid_send(a),
        !a.accept_use_policy,
        send_opening(a) is Ok,
    ensures
        a.list_windows || a.list_rooms || mode_of(a) == SendMode::Resolve,
{
}

/// What the curtain says while it covers the screen: what is really happening.
pub open spec fn curtain_text(a: SendArguments) -> Seq<char> {
    if a.dry_run {
        "카톡 채팅방 여는 중"@
    } else if a.draft {
        "카톡 초안 넣는 중"@
    } else if a.image is Some {
        "카톡 이미지 보내는 중"@
    } else {
        "카톡 보내는 중"@
    }
}

/// What the curtain says while it covers the screen.
pub fn curtain_title(a: &SendArguments) -> (r: &'static str)
    ensures
        r@ == curtain_text(*a),
{
    if a.dry_run {
        "카톡 채팅방 여는 중"
    } else if a.draft {
        "카톡 초안 넣는 중"
    } else if a.image.is_some() {
        "카톡 이미지 보내는 중"
    } else {
        "카톡 보내는 중"
    }
}

/// How long a send waits for a gap in the user's typing before it takes the focus.
#[derive(Debug, Clone, Copy, PartialEq, Eq, Structural)]
pub enum FocusPolicy {
    Immediate,
    Wait { seconds: u64 },
}

/// How long a send waits for the focus.
pub fn focus_policy(a: &SendArguments) -> (r: FocusPolicy)
    ensures
        r == if a.take_focus_now {
            FocusPolicy::Immediate
        } else {
            FocusPolicy::Wait {
                seconds: match a.focus_wait {
                    Some(seconds) => seconds,
                    None => DEFAULT_FOCUS_WAIT,
                },
            }
        },
{
    if a.take_focus_now {
        FocusPolicy::Immediate
    } else {
        FocusPolicy::Wait {
            seconds: match a.focus_wait {
                Some(seconds) => seconds,
                None => DEFAULT_FOCUS_WAIT,
            },
        }
    }
}

/// What is reported of a send. Never the text itself.
#[derive(Debug, PartialEq, Eq)]
pub struct SendReport {
    pub resolved: Option<bool>,
    pub sent: bool,
    pub drafted: Option<bool>,
    pub room: String,
    pub image: Option<String>,
    pub chars: Option<usize>,
}

/// What is reported of a send: a text by its length only, an image by its file name only.
pub fn send_report(
    mode: SendMode,
    room: String,
    image_name: Option<String>,
    body: Option<&str>,
) -> (r: SendReport)
    ensures
        r.room == room,
        r.resolved == if mode == SendMode::Resolve {
            Some(true)
        } else {
            None::<bool>
        },
        r.sent == (mode != SendMode::Resolve && mode != SendMode::Draft),
        r.drafted == if mode == SendMode::Draft || mode == SendMode::Text {
            Some(mode == SendMode::Draft)
        } else {
            None::<bool>
        },
        optional_text(r.image) == if mode == SendMode::Image {
            Some(
                match image_name {
                    Some(name) => name@,
                    None => "(unnamed)"@,
                },
            )
        } else {
            None
        },
        r.chars == if mode == SendMode::Draft || mode == SendMode::Text {
            Some(
                match body {
                    Some(text) => text@.len() as usize,
                    None => 0usize,
                },
            )
        } else {
            None::<usize>
        },
{
    match mode {
        SendMode::Background => SendReport {
            resolved: None,
            sent: true,
            drafted: None,
            room,
            image: None,
            chars: None,
        },
        SendMode::Resolve => SendReport {
            resolved: Some(true),
            sent: false,
            drafted: None,
            room,
            image: None,
            chars: None,
        },
        SendMode::Image => SendReport {
            resolved: None,
            sent: true,
            drafted: None,
            room,
            image: Some(
                match image_name {
                    Some(name) => name,
                    None => "(unnamed)".to_owned(),
                },
            ),
            chars: None,
        },
        SendMode::Draft | SendMode::Text => {
            let drafted: bool = mode == SendMode::Draft;
            let chars: usize = match body {
                Some(text) => char_count(text),
                None => 0,
            };
            SendReport {
                resolved: None,
                sent: !drafted,
                drafted: Some(drafted),
                room,
                image: None,
                chars: Some(chars),
            }
        },
    }
}

/// An argument of the program that delivers a reply.
#[derive(Debug, PartialEq, Eq)]
pub enum SendArgument {
    Literal(String),
    /// The path of the data directory, handed on as it is.
    DataDir,
}

/// An argument as a text, or the data directory.
pub enum ArgumentView {
    Literal(Seq<char>),
    DataDir,
}

impl View for SendArgument {
    type V = ArgumentView;

    open spec fn view(&self) -> ArgumentView {
        match self {
            SendArgument::Literal(text) => ArgumentView::Literal(text@),
            SendArgument::DataDir => ArgumentView::DataDir,
        }
    }
}

/// The arguments that deliver a reply: in the background only where nothing may be opened, else
/// with a short wait for the focus.
pub open spec fn reply_arguments(chat_id: Seq<char>, no_open: bool) -> Seq<ArgumentView> {
    seq![
        ArgumentView::Literal("--data-dir"@),
        ArgumentView::DataDir,
        ArgumentView::Literal("send"@),
        ArgumentView::Literal("--chat"@),
        ArgumentView::Literal(chat_id),
        ArgumentView::Literal("--accept-use-policy"@),
        ArgumentView::Literal("--json"@),
    ] + if no_open {
        seq![
            ArgumentView::Literal("--no-open"@),
            ArgumentView::Literal("--background-only"@),
        ]
    } else {
        seq![
            ArgumentView::Literal("--focus-wait"@),
            ArgumentView::Literal(decimal(REPLY_FOCUS_WAIT_SECS as nat)),
        ]
    }
}

fn literal(text: &str) -> (r: SendArgument)
    ensures
        r@ == ArgumentView::Literal(text@),
{
    SendArgument::Literal(text.to_owned())
}

/// The arguments that deliver a reply.
pub fn reply_send_args(chat_id: &str, no_open: bool) -> (r: Vec<SendArgument>)
    ensures
        r@.map_values(|a: SendArgument| a@) == reply_arguments(chat_id@, no_open),
{
    let mut args: Vec<SendArgument> = Vec::new();
    args.push(literal("--data-dir"));
    args.push(SendArgument::DataDir);
    args.push(literal("send"));
    args.push(literal("--chat"));
    args.push(literal(chat_id));
    args.push(literal("--accept-use-policy"));
    args.push(literal("--json"));
    if no_open {
        args.push(literal("--no-open"));
        args.push(literal("--background-only"));
    } else {
        args.push(literal("--focus-wait"));
        args.push(literal(decimal_text(REPLY_FOCUS_WAIT_SECS).as_str()));
    }
    assert(args@.map_values(|a: SendArgument| a@) =~= reply_arguments(chat_id@, no_open));
    args
}

/// The text at a place in a JSON document, if the document is valid and has a text there: what
/// `serde_json::from_str`, `Value::pointer` and `Value::as_str` give.
pub uninterp spec fn json_text(document: Seq<char>, pointer: Seq<char>) -> Option<Seq<char>>;

/// Calls `serde_json::from_str`, `Value::pointer` and `Value::as_str` of the crate `serde_json`.
/// The result is named: it depends on the document and the place alone.
#[verifier::external_body]
fn json_text_at(document: &str, pointer: &str) -> (r: Option<String>)
    ensures
        optional_text(r) == json_text(document@, pointer@),
{
    let value = serde_json::from_str::<serde_json::Value>(document).ok()?;
    value.pointer(pointer)?.as_str().map(String::from)
}

/// Why a send failed, from what its program wrote: its error output; else the cause or the
/// message that its JSON output gives; else that output; else its exit status.
pub open spec fn child_error(
    status: Seq<char>,
    stdout: Seq<char>,
    stderr: Seq<char>,
    cause: Option<Seq<char>>,
    message: Option<Seq<char>>,
) -> Seq<char> {
    if stderr.len() > 0 {
        stderr
    } else if stdout.len() > 0 {
        match (cause, message) {
            (Some(cause), _) => cause,
            (None, Some(message)) => message,
            (None, None) => stdout,
        }
    } else {
        "katok send failed with "@ + status
    }
}

/// Why a send failed, from the parts of what its program wrote.
pub fn choose_error_detail(
    status: &str,
    stdout: String,
    stderr: String,
    cause: Option<String>,
    message: Option<String>,
) -> (r: String)
    ensures
        r@ == child_error(
            status@,
            stdout@,
            stderr@,
            optional_text(cause),
            optional_text(message),
        ),
{
    if !stderr.as_str().is_empty() {
        return stderr;
    }
    if !stdout.as_str().is_empty() {
        return match cause {
            Some(cause) => cause,
            None => match message {
                Some(message) => message,
                None => stdout,
            },
        };
    }
    let mut text: String = "katok send failed with ".to_owned();
    text.append(status);
    text
}

/// Why a send failed, from what its program wrote.
pub fn send_child_error_detail(status: &str, stdout: &[u8], stderr: &[u8]) -> (r: String)
    ensures
        r@ == ({
            let output = trimmed(utf8_lossy(stdout@));
            child_error(
                status@,
                output,
                trimmed(utf8_lossy(stderr@)),
                json_text(output, "/error/cause"@),
                json_text(output, "/error/message"@),
            )
        }),
{
    let words: String = trim(lossy_text(stderr).as_str());
    let output: String = trim(lossy_text(stdout).as_str());
    let cause: Option<String> = json_text_at(output.as_str(), "/error/cause");
    let message: Option<String> = json_text_at(output.as_str(), "/error/message");
    choose_error_detail(status, output, words, cause, message)
}

/// The gaps that split chunks, and the version of the chunker.
#[derive(Debug, Clone, Copy, PartialEq, Eq, Structural)]
pub struct ChunkSettings {
    pub group_gap_seconds: i64,
    pub direct_gap_seconds: i64,
    pub chunker_version: i64,
}

/// Whether every chunk has to be built anew: there are none yet, or they were built with other
/// settings or another chunker.
pub fn needs_full_rebuild(
    chunk_count: usize,
    stored: Option<ChunkSettings>,
    wanted: ChunkSettings,
) -> (r: bool)
    ensures
        r == (chunk_count == 0 || stored != Some(wanted)),
{
    if chunk_count == 0 {
        return true;
    }
    match stored {
        Some(settings) => !(settings == wanted),
        None => true,
    }
}

/// What a watch learns from a sync report.
pub fn poll_archive_state(
    inserted_messages: usize,
    updated_messages: usize,
    total_messages: usize,
    chunks: usize,
) -> (r: PollArchiveState)
    ensures
        r.archive_changed == (inserted_messages > 0 || updated_messages > 0),
        r.archived_messages == total_messages,
        r.chunks == chunks,
{
    PollArchiveState {
        archive_changed: inserted_messages > 0 || updated_messages > 0,
        archived_messages: total_messages,
        chunks,
    }
}

/// Decides whether deletions may be reconciled: not against a source of which rooms could not be
/// read, whose messages would look deleted.
pub fn check_prune(pruning: bool, coverage: Option<SourceCoverage>) -> (r: Result<(), Refusal>)
    ensures
        r == match coverage {
            Some(seen) => if pruning && seen.unavailable_chats > 0 {
                Err::<(), _>(Refusal::SourceIncomplete(seen.unavailable_chats))
            } else {
                Ok(())
            },
            None => Ok(()),
        },
{
    match coverage {
        Some(seen) => if pruning && seen.unavailable_chats > 0 {
            Err(Refusal::SourceIncomplete(seen.unavailable_chats))
        } else {
            Ok(())
        },
        None => Ok(()),
    }
}

/// The key under which a sync reports the messages that the source no longer has.
pub fn prune_key(prune_deleted: bool) -> (r: &'static str)
    ensures
        r@ == if prune_deleted {
            "pruned_messages"@
        } else {
            "prunable_messages"@
        },
{
    if prune_deleted {
        "pruned_messages"
    } else {
        "prunable_messages"
    }
}

/// A chat that a sync changed, and from which message on. Without one, the whole chat.
#[derive(Debug, PartialEq, Eq)]
pub struct TouchedChat {
    pub chat_id: String,
    pub earliest_changed_timestamp: String,
    pub earliest_changed_message_id: String,
}

/// A touched chat as texts.
pub struct TouchView {
    pub chat_id: Seq<char>,
    pub timestamp: Seq<char>,
    pub message_id: Seq<char>,
}

impl View for TouchedChat {
    type V = TouchView;

    open spec fn view(&self) -> TouchView {
        TouchView {
            chat_id: self.chat_id@,
            timestamp: self.earliest_changed_timestamp@,
            message_id: self.earliest_changed_message_id@,
        }
    }
}

/// The touched chats of a list.
pub open spec fn touch_views(touched: Seq<TouchedChat>) -> Seq<TouchView> {
    touched.map_values(|t: TouchedChat| t@)
}

/// The whole of a chat.
pub open spec fn whole_chat(chat_id: Seq<char>) -> TouchView {
    TouchView { chat_id, timestamp: Seq::empty(), message_id: Seq::empty() }
}

/// The place of the first entry for a chat.
pub open spec fn touch_place(touched: Seq<TouchView>, chat_id: Seq<char>) -> Option<int>
    decreases touched.len(),
{
    if touched.len() == 0 {
        None
    } else {
        match touch_place(touched.drop_last(), chat_id) {
            Some(k) => Some(k),
            None => if touched.last().chat_id == chat_id {
                Some(touched.len() - 1)
            } else {
                None
            },
        }
    }
}

/// The list with a chat touched as a whole.
pub open spec fn touched_whole(touched: Seq<TouchView>, chat_id: Seq<char>) -> Seq<TouchView> {
    match touch_place(touched, chat_id) {
        Some(k) => touched.update(k, whole_chat(chat_id)),
        None => touched.push(whole_chat(chat_id)),
    }
}

/// The list with chats touched as a whole, one after the other.
pub open spec fn widened(touched: Seq<TouchView>, chats: Seq<Seq<char>>) -> Seq<TouchView>
    decreases chats.len(),
{
    if chats.len() == 0 {
        touched
    } else {
        touched_whole(widened(touched, chats.drop_last()), chats.last())
    }
}

proof fn lemma_touch_place(touched: Seq<TouchView>, chat_id: Seq<char>)
    ensures
        match touch_place(touched, chat_id) {
            Some(k) => 0 <= k < touched.len() && touched[k].chat_id == chat_id,
            None => forall|i: int|
                0 <= i < touched.len() ==> (#[trigger] touched[i]).chat_id != chat_id,
        },
    decreases touched.len(),
{
    if touched.len() > 0 {
        lemma_touch_place(touched.drop_last(), chat_id);
        match touch_place(touched.drop_last(), chat_id) {
            Some(k) => {
                assert(touched[k] == touched.drop_last()[k]);
            },
            None => {
                if touched.last().chat_id != chat_id {
                    assert forall|i: int| 0 <= i < touched.len() implies (
                    #[trigger] touched[i]).chat_id != chat_id by {
                        if i < touched.len() - 1 {
                            assert(touched.drop_last()[i].chat_id != chat_id);
                        }
                    }
                }
            },
        }
    }
}

/// A chat that lost messages is rebuilt as a whole: no row that is left could anchor a cut.
pub proof fn lemma_doomed_chats_are_whole(
    touched: Seq<TouchView>,
    chats: Seq<Seq<char>>,
    i: int,
)
    requires
        0 <= i < chats.len(),
    ensures
        widened(touched, chats).contains(whole_chat(chats[i])),
    decreases chats.len(),
{
    let before = widened(touched, chats.drop_last());
    let id = chats.last();
    let after = widened(touched, chats);
    lemma_touch_place(before, id);
    if i == chats.len() - 1 {
        match touch_place(before, id) {
            Some(k) => {
                assert(after[k] == whole_chat(id));
            },
            None => {
                assert(after[before.len() as int] == whole_chat(id));
            },
        }
    } else {
        lemma_doomed_chats_are_whole(touched, chats.drop_last(), i);
        let k = choose|k: int| 0 <= k < before.len() && before[k] == whole_chat(chats[i]);
        assert(after[k] == whole_chat(chats[i]));
    }
}

/// What was touched in other chats stays as it was.
pub proof fn lemma_other_chats_keep_their_touch(
    touched: Seq<TouchView>,
    chats: Seq<Seq<char>>,
    k: int,
)
    requires
        0 <= k < touched.len(),
        !chats.contains(touched[k].chat_id),
    ensures
        k < widened(touched, chats).len(),
        widened(touched, chats)[k] == touched[k],
    decreases chats.len(),
{
    if chats.len() > 0 {
        assert forall|i: int| 0 <= i < chats.len() - 1 implies chats.drop_last()[i]
            != touched[k].chat_id by {
            assert(chats[i] != touched[k].chat_id);
        }
        lemma_other_chats_keep_their_touch(touched, chats.drop_last(), k);
        assert(chats[chats.len() - 1] != touched[k].chat_id);
        lemma_touch_place(widened(touched, chats.drop_last()), chats.last());
    }
}

fn touch_whole(touched: &mut Vec<TouchedChat>, chat_id: &String)
    ensures
        touch_views(final(touched)@) == touched_whole(touch_views(old(touched)@), chat_id@),
{
    let ghost before = touch_views(touched@);
    let whole: TouchedChat = TouchedChat {
        chat_id: chat_id.clone(),
        earliest_changed_timestamp: String::new(),
        earliest_changed_message_id: String::new(),
    };
    assert(whole@ == whole_chat(chat_id@)) by {
        assert(whole@.timestamp =~= Seq::<char>::empty());
        assert(whole@.message_id =~= Seq::<char>::empty());
    }
    let mut i: usize = 0;
    while i < touched.len()
        invariant
            i <= touched.len(),
            before == touch_views(touched@),
            touched@ == old(touched)@,
            whole@ == whole_chat(chat_id@),
            touch_place(before.take(i as int), chat_id@) is None,
        decreases touched.len() - i,
    {
        assert(before.take(i + 1).drop_last() =~= before.take(i as int));
        assert(before.take(i + 1).last() == touched@[i as int]@);
        if touched[i].chat_id == *chat_id {
            proof {
                lemma_touch_front(before, chat_id@, i + 1);
            }
            touched.set(i, whole);
            assert(touch_views(touched@) =~= before.update(i as int, whole_chat(chat_id@)));
            return ;
        }
        i = i + 1;
    }
    assert(before.take(before.len() as int) =~= before);
    touched.push(whole);
    assert(touch_views(touched@) =~= before.push(whole_chat(chat_id@)));
}

proof fn lemma_touch_front(touched: Seq<TouchView>, chat_id: Seq<char>, n: int)
    requires
        0 <= n <= touched.len(),
        touch_place(touched.take(n), chat_id) is Some,
    ensures
        touch_place(touched, chat_id) == touch_place(touched.take(n), chat_id),
    decreases touched.len(),
{
    if n == touched.len() {
        assert(touched.take(n) =~= touched);
    } else {
        assert(touched.drop_last().take(n) =~= touched.take(n));
        lemma_touch_front(touched.drop_last(), chat_id, n);
    }
}

/// Touches as a whole every chat that lost messages, in the order of the ids.
pub fn widen_touched(touched: Vec<TouchedChat>, doomed_chats: &[String]) -> (r: Vec<TouchedChat>)
    ensures
        exists|chats: Seq<Seq<char>>|
            {
                &&& #[trigger] is_sorted_set_of(chats, texts(doomed_chats@))
                &&& touch_views(r@) == widened(touch_views(touched@), chats)
            },
{
    let ids: Vec<String> = sorted_set(doomed_chats);
    let ghost chats = texts(ids@);
    let ghost before = touch_views(touched@);
    let mut list: Vec<TouchedChat> = touched;
    assert(chats.take(0) =~= Seq::<Seq<char>>::empty());
    for i in 0..ids.len()
        invariant
            chats == texts(ids@),
            touch_views(list@) == widened(before, chats.take(i as int)),
    {
        assert(chats.take(i + 1).drop_last() =~= chats.take(i as int));
        assert(chats.take(i + 1).last() == ids@[i as int]@);
        touch_whole(&mut list, &ids[i]);
    }
    assert(chats.take(chats.len() as int) =~= chats);
    list
}

/// A watch without replies always starts. One with replies starts exactly where it writes text,
/// knows its chat, the policy was accepted, and both ends are terminals; each refusal tells what is
/// missing.
pub proof fn lemma_replies_need_everything(
    a: WatchArguments,
    stdin_terminal: bool,
    stdout_terminal: bool,
)
    ensures
        watch_refusal(a, stdin_terminal, stdout_terminal) is None <==> !a.reply || (a.format
            != Some(WatchOutputFormat::Jsonl) && (a.chat is Some || a.select)
            && a.accept_use_policy && stdin_terminal && stdout_terminal),
        watch_refusal(a, stdin_terminal, stdout_terminal) == Some(Refusal::ReplyNeedsText) ==> a.format
            == Some(WatchOutputFormat::Jsonl),
        watch_refusal(a, stdin_terminal, stdout_terminal) == Some(Refusal::ReplyNeedsChat) ==> a.chat
            is None && !a.select,
        watch_refusal(a, stdin_terminal, stdout_terminal) == Some(Refusal::PolicyNotAccepted)
            ==> !a.accept_use_policy,
        watch_refusal(a, stdin_terminal, stdout_terminal) == Some(Refusal::InputNotTerminal)
            ==> !stdin_terminal,
        watch_refusal(a, stdin_terminal, stdout_terminal) == Some(Refusal::OutputNotTerminal)
            ==> !stdout_terminal,
        a.reply && !a.accept_use_policy && a.format != Some(WatchOutputFormat::Jsonl) && (a.chat
            is Some || a.select) ==> watch_refusal(a, stdin_terminal, stdout_terminal) == Some(
            Refusal::PolicyNotAccepted,
        ),
{
}

/// How a send starts follows from what was asked: a listing lists and nothing else, a text that
/// was given is taken and not read, and the policy is all that can be missing.
pub proof fn lemma_send_opens_as_asked(a: SendArguments)
    ensures
        send_opening(a) == Ok::<_, Refusal>(SendOpening::ListWindows) <==> a.list_windows,
        !a.list_windows && a.list_rooms ==> send_opening(a) == Ok::<_, Refusal>(
            SendOpening::ListRooms { limit: a.limit },
        ),
        send_opening(a) is Err <==> !a.list_windows && !a.list_rooms && !a.dry_run
            && !a.accept_use_policy,
        send_opening(a) is Err ==> send_opening(a)->Err_0 == Refusal::PolicyNotAccepted,
        send_opening(a) == Ok::<_, Refusal>(SendOpening::GivenBody) ==> a.text is Some
            && !a.dry_run && a.image is None,
        send_opening(a) == Ok::<_, Refusal>(SendOpening::ReadBody) ==> a.text is None && !a.dry_run
            && a.image is None,
        !a.list_windows && !a.list_rooms && a.accept_use_policy && !a.dry_run && a.image is None
            ==> send_opening(a) == Ok::<_, Refusal>(
            if a.text is Some {
                SendOpening::GivenBody
            } else {
                SendOpening::ReadBody
            },
        ),
{
}

/// The text to send is the given one up to its last character that is no line feed.
pub proof fn lemma_only_last_feeds_go(s: Seq<char>)
    ensures
        ({
            let k = without_last_feeds(s).len() as int;
            &&& k <= s.len()
            &&& without_last_feeds(s) == s.take(k)
            &&& forall|i: int| k <= i < s.len() ==> (#[trigger] s[i]) == '\n'
            &&& k > 0 ==> s[k - 1] != '\n'
        }),
    decreases s.len(),
{
    if s.len() > 0 && s.last() == '\n' {
        let front = s.drop_last();
        lemma_only_last_feeds_go(front);
        let k = without_last_feeds(front).len() as int;
        assert(front.take(k) =~= s.take(k));
        assert forall|i: int| k <= i < s.len() implies (#[trigger] s[i]) == '\n' by {
            if i < front.len() {
                assert(s[i] == front[i]);
            }
        }
        if k > 0 {
            assert(s[k - 1] == front[k - 1]);
        }
    } else {
        assert(s.take(s.len() as int) =~= s);
    }
}

/// A valid send does what its flags say: a dry run only resolves, a draft is only staged, an image
/// is sent as an image, and everything else is a text.
pub proof fn lemma_mode_follows_the_flags(a: SendArguments)
    requires
        is_valid_send(a),
    ensures
        mode_of(a) == SendMode::Background <==> a.background_only,
        mode_of(a) == SendMode::Resolve <==> a.dry_run,
        mode_of(a) == SendMode::Draft <==> a.draft,
        mode_of(a) == SendMode::Image <==> a.image is Some && !a.dry_run,
        mode_of(a) == SendMode::Text <==> !a.background_only && !a.dry_run && !a.draft && a.image
            is None,
{
}

/// The curtain tells truly what a valid send does: opening a room, leaving a draft, sending an
/// image or sending a text, each in words of its own.
pub proof fn lemma_curtain_tells_the_mode(a: SendArguments)
    requires
        is_valid_send(a),
    ensures
        curtain_text(a) == "카톡 채팅방 여는 중"@ <==> mode_of(a) == SendMode::Resolve,
        curtain_text(a) == "카톡 초안 넣는 중"@ <==> mode_of(a) == SendMode::Draft,
        curtain_text(a) == "카톡 이미지 보내는 중"@ <==> mode_of(a) == SendMode::Image,
        curtain_text(a) == "카톡 보내는 중"@ <==> mode_of(a) == SendMode::Text || mode_of(a)
            == SendMode::Background,
{
    reveal_strlit("카톡 채팅방 여는 중");
    reveal_strlit("카톡 초안 넣는 중");
    reveal_strlit("카톡 이미지 보내는 중");
    reveal_strlit("카톡 보내는 중");
    assert("카톡 채팅방 여는 중"@[3] == '채');
    assert("카톡 초안 넣는 중"@[3] == '초');
    assert("카톡 이미지 보내는 중"@[3] == '이');
    assert("카톡 보내는 중"@[3] == '보');
}

/// A reply is delivered to its chat with the accepted policy, never by a text on the command line;
/// it stays in the background exactly where nothing may be opened, and waits for the focus exactly
/// where something may.
pub proof fn lemma_reply_is_sent_to_its_chat(chat_id: Seq<char>, no_open: bool)
    ensures
        reply_arguments(chat_id, no_open).len() == 9,
        reply_arguments(chat_id, no_open)[0] == ArgumentView::Literal("--data-dir"@),
        reply_arguments(chat_id, no_open)[1] == ArgumentView::DataDir,
        reply_arguments(chat_id, no_open)[2] == ArgumentView::Literal("send"@),
        reply_arguments(chat_id, no_open)[3] == ArgumentView::Literal("--chat"@),
        reply_arguments(chat_id, no_open)[4] == ArgumentView::Literal(chat_id),
        reply_arguments(chat_id, no_open)[5] == ArgumentView::Literal("--accept-use-policy"@),
        reply_arguments(chat_id, no_open)[6] == ArgumentView::Literal("--json"@),
        no_open ==> reply_arguments(chat_id, no_open)[7] == ArgumentView::Literal("--no-open"@)
            && reply_arguments(chat_id, no_open)[8] == ArgumentView::Literal("--background-only"@),
        !no_open ==> reply_arguments(chat_id, no_open)[7] == ArgumentView::Literal("--focus-wait"@)
            && reply_arguments(chat_id, no_open)[8] == ArgumentView::Literal(decimal(2)),
{
}

/// A failed send is always explained: by the error output where there is any, else by the cause,
/// the message or the whole of the other output, and by the exit status where nothing was written.
pub proof fn lemma_failed_send_is_explained(
    status: Seq<char>,
    stdout: Seq<char>,
    stderr: Seq<char>,
    cause: Option<Seq<char>>,
    message: Option<Seq<char>>,
)
    ensures
        stderr.len() > 0 ==> child_error(status, stdout, stderr, cause, message) == stderr,
        stderr.len() == 0 && stdout.len() > 0 && cause is Some ==> child_error(
            status,
            stdout,
            stderr,
            cause,
            message,
        ) == cause->0,
        stderr.len() == 0 && stdout.len() > 0 && cause is None && message is Some ==> child_error(
            status,
            stdout,
            stderr,
            cause,
            message,
        ) == message->0,
        stderr.len() == 0 && stdout.len() > 0 && cause is None && message is None ==> child_error(
            status,
            stdout,
            stderr,
            cause,
            message,
        ) == stdout,
        stderr.len() == 0 && stdout.len() == 0 ==> ({
            let said = child_error(status, stdout, stderr, cause, message);
            said.len() > status.len() && said.skip(said.len() - status.len()) == status
        }),
{
    reveal_strlit("katok send failed with ");
    let opening = "katok send failed with "@;
    assert((opening + status).skip(opening.len() as int) =~= status);
}

/// Widening touches exactly the chats that were touched and those that lost messages: the latter
/// from their first message on, and no chat twice.
pub proof fn lemma_widening_touches_the_right_chats(
    touched: Seq<TouchView>,
    chats: Seq<Seq<char>>,
)
    ensures
        forall|k: int|
            0 <= k < widened(touched, chats).len() ==> {
                let entry = #[trigger] widened(touched, chats)[k];
                ||| chats.contains(entry.chat_id) && entry.timestamp.len() == 0
                    && entry.message_id.len() == 0
                ||| touched.contains(entry)
            },
        (forall|i: int, j: int|
            0 <= i < j < touched.len() ==> (#[trigger] touched[i]).chat_id != (
            #[trigger] touched[j]).chat_id) ==> forall|i: int, j: int|
            0 <= i < j < widened(touched, chats).len() ==> (#[trigger] widened(
                touched,
                chats,
            )[i]).chat_id != (#[trigger] widened(touched, chats)[j]).chat_id,
    decreases chats.len(),
{
    if chats.len() > 0 {
        let front = chats.drop_last();
        let before = widened(touched, front);
        let id = chats.last();
        let after = widened(touched, chats);
        lemma_widening_touches_the_right_chats(touched, front);
        lemma_touch_place(before, id);
        assert(chats[chats.len() - 1] == id);
        assert forall|k: int| 0 <= k < after.len() implies {
            let entry = #[trigger] after[k];
            ||| chats.contains(entry.chat_id) && entry.timestamp.len() == 0
                && entry.message_id.len() == 0
            ||| touched.contains(entry)
        } by {
            if after[k] != whole_chat(id) {
                assert(after[k] == before[k]);
                if front.contains(before[k].chat_id) {
                    let i = front.index_of(before[k].chat_id);
                    assert(chats[i] == before[k].chat_id);
                }
            }
        }
        if forall|i: int, j: int|
            0 <= i < j < touched.len() ==> (#[trigger] touched[i]).chat_id != (
            #[trigger] touched[j]).chat_id {
            assert forall|i: int, j: int| 0 <= i < j < after.len() implies (
            #[trigger] after[i]).chat_id != (#[trigger] after[j]).chat_id by {
                if j < before.len() {
                    assert(before[i].chat_id != before[j].chat_id);
                    match touch_place(before, id) {
                        Some(k) => {
                            assert(after[i].chat_id == before[i].chat_id);
                            assert(after[j].chat_id == before[j].chat_id);
                        },
                        None => {},
                    }
                } else {
                    assert(before[i].chat_id != id);
                }
            }
        }
    } else {
        assert forall|k: int| 0 <= k < touched.len() implies touched.contains(
            #[trigger] touched[k],
        ) by {}
    }
}

/// Refusals say what they are about: the chat that is not archived, and how many rooms could not
/// be read.
pub proof fn lemma_refusals_say_what_is_wrong(chat: String, rooms: usize)
    ensures
        Refusal::ChatNotArchived(chat).text().subrange(8, 8 + chat@.len() as int) == chat@,
        Refusal::SourceIncomplete(rooms).text().subrange(
            33,
            33 + decimal(rooms as nat).len() as int,
        ) == decimal(rooms as nat),
{
    reveal_strlit("no chat ");
    reveal_strlit("refusing to reconcile deletions: ");
    assert("no chat "@.len() == 8);
    assert("refusing to reconcile deletions: "@.len() == 33);
    assert(Refusal::ChatNotArchived(chat).text().subrange(8, 8 + chat@.len() as int) =~= chat@);
    assert(Refusal::SourceIncomplete(rooms).text().subrange(
        33,
        33 + decimal(rooms as nat).len() as int,
    ) =~= decimal(rooms as nat));
}

/// What a watch is asked to do keeps what was given: its tail and its replay; and a watch that
/// polls once polls once, whatever else was given.
pub proof fn lemma_watch_options_keep_what_was_given(
    a: WatchArguments,
    format: WatchOutputFormat,
    chat_id: Option<String>,
    r: WatchOptions,
)
    requires
        call_ensures(watch_options, (&a, format, chat_id), r),
    ensures
        r.format == format,
        r.chat_id == chat_id,
        r.replay_existing == a.replay_existing,
        r.tail == a.tail as usize,
        a.once ==> r.max_polls == Some(1u64),
        !a.once ==> r.max_polls == a.max_polls,
{
}

/// A valid send addresses the one target that it names, and fails exactly where it names none.
pub proof fn lemma_send_addresses_what_it_names(
    a: SendArguments,
    target: Result<SendTarget, Refusal>,
    found: Option<ArchivedChat>,
    room: Result<RoomTarget, Refusal>,
)
    requires
        is_valid_send(a),
        call_ensures(send_target, (&a,), target),
        target is Ok ==> call_ensures(room_target, (target->Ok_0, found), room),
    ensures
        target is Err <==> a.chat is None && a.room is None,
        a.room is Some ==> room is Ok && room->Ok_0.name == a.room->0 && room->Ok_0.last_message_at
            is None,
        a.chat is Some && found is Some ==> room is Ok && room->Ok_0.name == found->0.name
            && room->Ok_0.last_message_at == Some(found->0.last_message_at),
        a.chat is Some && found is None ==> room is Err && room->Err_0 == Refusal::ChatNotArchived(
            a.chat->0,
        ),
{
}

/// A send waits for the focus as long as was asked, not at all where it takes it at once.
pub proof fn lemma_focus_is_waited_for_as_asked(a: SendArguments, r: FocusPolicy)
    requires
        call_ensures(focus_policy, (&a,), r),
    ensures
        r == FocusPolicy::Immediate <==> a.take_focus_now,
        !a.take_focus_now && a.focus_wait is Some ==> r == (FocusPolicy::Wait {
            seconds: a.focus_wait->0,
        }),
{
}

/// A report says that something was sent exactly where something left the machine: not of a dry run
/// and not of a draft, and it never tells the text.
pub proof fn lemma_report_is_truthful(
    a: SendArguments,
    mode: SendMode,
    room: String,
    image_name: Option<String>,
    body: Option<&str>,
    r: SendReport,
)
    requires
        is_valid_send(a),
        call_ensures(send_mode, (&a,), mode),
        call_ensures(send_report, (mode, room, image_name, body), r),
    ensures
        r.room == room,
        r.sent <==> !a.dry_run && !a.draft,
        r.resolved == Some(true) <==> a.dry_run,
        r.drafted == Some(true) <==> a.draft,
        r.image is Some <==> a.image is Some && !a.dry_run,
        r.chars is Some ==> a.image is None && !a.dry_run && !a.background_only,
        r.chars is Some && body is Some && body->0@.len() <= usize::MAX ==> r.chars->0
            == body->0@.len(),
{
}

/// Nothing is reconciled against a source of which a room could not be read.
pub proof fn lemma_pruning_needs_every_room(
    pruning: bool,
    coverage: Option<SourceCoverage>,
    r: Result<(), Refusal>,
)
    requires
        call_ensures(check_prune, (pruning, coverage), r),
    ensures
        r is Err <==> pruning && coverage is Some && coverage->0.unavailable_chats > 0,
        r is Err ==> r->Err_0 == Refusal::SourceIncomplete(coverage->0.unavailable_chats),
{
}

/// Messages are reported as pruned exactly where they were deleted.
pub proof fn lemma_pruned_means_deleted(deleted: &'static str, previewed: &'static str)
    requires
        call_ensures(prune_key, (true,), deleted),
        call_ensures(prune_key, (false,), previewed),
    ensures
        deleted@ == "pruned_messages"@,
        previewed@ == "prunable_messages"@,
        deleted@ != previewed@,
{
    reveal_strlit("pruned_messages");
    reveal_strlit("prunable_messages");
    assert("pruned_messages"@.len() != "prunable_messages"@.len());
}

/// The index is wiped only on confirmation; chunks are kept exactly where there are some that were
/// built with the same settings; the archive changed exactly where a message was inserted or
/// updated.
pub proof fn lemma_index_is_kept_with_care(
    yes: bool,
    wiped: Result<(), Refusal>,
    chunk_count: usize,
    stored: Option<ChunkSettings>,
    wanted: ChunkSettings,
    rebuild: bool,
    counts: (usize, usize, usize, usize),
    state: PollArchiveState,
)
    requires
        call_ensures(check_wipe, (yes,), wiped),
        call_ensures(needs_full_rebuild, (chunk_count, stored, wanted), rebuild),
        call_ensures(poll_archive_state, counts, state),
    ensures
        wiped is Ok <==> yes,
        !rebuild <==> chunk_count > 0 && stored is Some && stored->0.group_gap_seconds
            == wanted.group_gap_seconds && stored->0.direct_gap_seconds == wanted.direct_gap_seconds
            && stored->0.chunker_version == wanted.chunker_version,
        !state.archive_changed <==> counts.0 == 0 && counts.1 == 0,
        state.archived_messages == counts.2,
        state.chunks == counts.3,
{
}

} // verus!
