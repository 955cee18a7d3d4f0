//! The commands of the program, which options go together, and what each command asks for.
pub use crate::session::WatchOutputFormat;

use crate::session::{chosen_format, effective_watch_format};
use std::path::PathBuf;
use vstd::prelude::*;

verus! {

pub const DEFAULT_TAIL: u64 = 50;

pub const MAX_TAIL: u64 = 1_000;

pub const DEFAULT_POLL_MS: u64 = 2_000;

pub const MIN_POLL_MS: u64 = 250;

pub const MAX_POLL_MS: u64 = 60_000;

pub const MAX_POLLS: u64 = 100_000;

pub const DEFAULT_SEARCH_LIMIT: usize = 10;

pub const MAX_LIMIT: usize = 100_000;

pub const DEFAULT_MEDIA_LIMIT: usize = 5_000;

pub const DEFAULT_BACKFILL_LIMIT: usize = 100_000;

pub const MAX_BACKFILL_LIMIT: usize = 1_000_000;

pub const DEFAULT_MAX_BYTES: u64 = 536_870_912;

pub const DEFAULT_ROOM_LIMIT: usize = 40;

pub const DEFAULT_FOCUS_WAIT: u64 = 15;

/// Follow the source and emit message and state changes.
#[derive(Debug)]
pub struct WatchArguments {
    pub source: Option<String>,
    pub path: Option<PathBuf>,
    pub chat: Option<String>,
    pub select: bool,
    pub format: Option<WatchOutputFormat>,
    pub tail: u64,
    pub reply: bool,
    pub reply_no_open: bool,
    pub accept_use_policy: bool,
    pub poll_ms: u64,
    pub once: bool,
    pub max_polls: Option<u64>,
    pub replay_existing: bool,
}

/// Send, stage, or inspect a KakaoTalk chat.
#[derive(Debug)]
pub struct SendArguments {
    pub room: Option<String>,
    pub chat: Option<String>,
    pub text: Option<String>,
    pub image: Option<PathBuf>,
    pub list_windows: bool,
    pub list_rooms: bool,
    pub limit: usize,
    pub dry_run: bool,
    pub no_open: bool,
    pub background_only: bool,
    pub draft: bool,
    pub take_focus_now: bool,
    pub focus_wait: Option<u64>,
    pub accept_use_policy: bool,
    pub json: bool,
}

#[derive(Debug)]
pub enum SearchCommand {
    Keyword { query: String, limit: usize, json: bool },
    Bm25 { query: String, limit: usize, json: bool },
    Semantic { query: String, limit: usize, json: bool },
}

#[derive(Debug)]
pub enum ChunkCommand {
    Get { chunk_id: String, include_message_ids: bool, redact: bool, json: bool },
    Context { chunk_id: String, json: bool },
    Parent { chunk_id: String, json: bool },
}

#[derive(Debug)]
pub enum SourceCommand {
    Chats { source: Option<String>, path: Option<PathBuf>, json: bool },
}

#[derive(Debug)]
#[allow(inconsistent_fields)]
pub enum MediaCommand {
    Get {
        chat: i64,
        log: Option<i64>,
        out: Option<PathBuf>,
        no_cdn: bool,
        kinds: Vec<String>,
        limit: usize,
        json: bool,
    },
    Backfill {
        chat: Option<i64>,
        out: Option<PathBuf>,
        kinds: Vec<String>,
        dry_run: bool,
        max_bytes: u64,
        limit: usize,
        json: bool,
    },
}

#[derive(Debug)]
pub enum PermissionsCommand {
    Macos { accessibility: bool, dry_run: bool, json: bool },
}

#[derive(Debug)]
#[allow(inconsistent_fields)]
pub enum Commands {
    Doctor { macos_probe: bool, json: bool },
    Sync {
        source: Option<String>,
        path: Option<PathBuf>,
        json: bool,
        prune_preview: bool,
        prune_deleted: bool,
        touched: bool,
    },
    Index { full: bool, dry_run: bool, json: bool },
    Search { command: SearchCommand },
    Chunk { command: ChunkCommand },
    Source { command: SourceCommand },
    Media { command: MediaCommand },
    Permissions { command: PermissionsCommand },
    WipeIndex { yes: bool, json: bool },
    Chunks { chat: String, json: bool },
    Transcript { chat: String, since: Option<String>, out: Option<PathBuf>, json: bool },
    Watch { arguments: WatchArguments },
    Send { arguments: SendArguments },
}

/// Whether a command writes for a program: where it was asked for, and for a watch where JSON
/// lines are its format, which they are by default unless a chat is selected from a list.
pub open spec fn wants_json(command: Commands) -> bool {
    match command {
        Commands::Doctor { macos_probe, json } => json,
        Commands::Sync { source, path, json, prune_preview, prune_deleted, touched } => json,
        Commands::Index { full, dry_run, json } => json,
        Commands::Search { command } => match command {
            SearchCommand::Keyword { query, limit, json } => json,
            SearchCommand::Bm25 { query, limit, json } => json,
            SearchCommand::Semantic { query, limit, json } => json,
        },
        Commands::Chunk { command } => match command {
            ChunkCommand::Get { chunk_id, include_message_ids, redact, json } => json,
            ChunkCommand::Context { chunk_id, json } => json,
            ChunkCommand::Parent { chunk_id, json } => json,
        },
        Commands::Source { command } => match command {
            SourceCommand::Chats { source, path, json } => json,
        },
        Commands::Media { command } => match command {
            MediaCommand::Get { chat, log, out, no_cdn, kinds, limit, json } => json,
            MediaCommand::Backfill { chat, out, kinds, dry_run, max_bytes, limit, json } => json,
        },
        Commands::Permissions { command } => match command {
            PermissionsCommand::Macos { accessibility, dry_run, json } => json,
        },
        Commands::WipeIndex { yes, json } => json,
        Commands::Chunks { chat, json } => json,
        Commands::Transcript { chat, since, out, json } => json,
        Commands::Watch { arguments } => chosen_format(arguments.select, arguments.format)
            == WatchOutputFormat::Jsonl,
        Commands::Send { arguments } => arguments.json,
    }
}

/// Whether a command writes for a program.
pub fn command_requests_json(command: &Commands) -> (r: bool)
    ensures
        r == wants_json(*command),
{
    match command {
        Commands::Doctor { macos_probe: _, json } => *json,
        Commands::Sync {
            source: _,
            path: _,
            json,
            prune_preview: _,
            prune_deleted: _,
            touched: _,
        } => *json,
        Commands::Index { full: _, dry_run: _, json } => *json,
        Commands::Search { command } => match command {
            SearchCommand::Keyword { query: _, limit: _, json } => *json,
            SearchCommand::Bm25 { query: _, limit: _, json } => *json,
            SearchCommand::Semantic { query: _, limit: _, json } => *json,
        },
        Commands::Chunk { command } => match command {
            ChunkCommand::Get { chunk_id: _, include_message_ids: _, redact: _, json } => *json,
            ChunkCommand::Context { chunk_id: _, json } => *json,
            ChunkCommand::Parent { chunk_id: _, json } => *json,
        },
        Commands::Source { command } => match command {
            SourceCommand::Chats { source: _, path: _, json } => *json,
        },
        Commands::Media { command } => match command {
            MediaCommand::Get {
                chat: _,
                log: _,
                out: _,
                no_cdn: _,
                kinds: _,
                limit: _,
                json,
            } => *json,
            MediaCommand::Backfill {
                chat: _,
                out: _,
                kinds: _,
                dry_run: _,
                max_bytes: _,
                limit: _,
                json,
            } => *json,
        },
        Commands::Permissions { command } => match command {
            PermissionsCommand::Macos { accessibility: _, dry_run: _, json } => *json,
        },
        Commands::WipeIndex { yes: _, json } => *json,
        Commands::Chunks { chat: _, json } => *json,
        Commands::Transcript { chat: _, since: _, out: _, json } => *json,
        Commands::Watch { arguments } => {
            match effective_watch_format(arguments.select, arguments.format) {
                WatchOutputFormat::Jsonl => true,
                WatchOutputFormat::Text => false,
            }
        },
        Commands::Send { arguments } => arguments.json,
    }
}

/// How options fail to go together.
#[derive(Debug, Clone, Copy, PartialEq, Eq, Structural)]
pub enum ArgumentFault {
    /// A send needs a room, a chat or a listing mode.
    TargetMissing,
    /// The two options exclude each other.
    Conflict { first: OptionName, second: OptionName },
    /// The first option makes sense only with the second.
    Requires { first: OptionName, second: OptionName },
    /// The number is outside what the option takes.
    OutOfRange { option: OptionName },
}

/// The options that faults speak of.
#[derive(Debug, Clone, Copy, PartialEq, Eq, Structural)]
pub enum OptionName {
    Room,
    Chat,
    Text,
    Image,
    ListWindows,
    ListRooms,
    DryRun,
    NoOpen,
    BackgroundOnly,
    Draft,
    TakeFocusNow,
    FocusWait,
    Select,
    Reply,
    ReplyNoOpen,
    PrunePreview,
    PruneDeleted,
    Tail,
    PollMs,
    MaxPolls,
    Limit,
}

/// The two options of a send exclude each other.
pub open spec fn are_exclusive(first: OptionName, second: OptionName) -> bool {
    match first {
        OptionName::Chat => second == OptionName::Room,
        OptionName::Image => second == OptionName::Text,
        OptionName::BackgroundOnly => {
            ||| second == OptionName::Image
            ||| second == OptionName::Draft
            ||| second == OptionName::DryRun
            ||| second == OptionName::TakeFocusNow
            ||| second == OptionName::ListWindows
            ||| second == OptionName::ListRooms
        },
        OptionName::Draft => second == OptionName::Image || second == OptionName::DryRun,
        OptionName::FocusWait => second == OptionName::TakeFocusNow,
        _ => false,
    }
}

/// A send has a target, or only lists.
pub open spec fn has_target(a: SendArguments) -> bool {
    a.room is Some || a.chat is Some || a.list_windows || a.list_rooms
}

/// A send goes together.
pub open spec fn is_valid_send(a: SendArguments) -> bool {
    &&& has_target(a)
    &&& !(a.chat is Some && a.room is Some)
    &&& !(a.image is Some && a.text is Some)
    &&& a.background_only ==> {
        &&& a.no_open
        &&& a.image is None
        &&& !a.draft
        &&& !a.dry_run
        &&& !a.take_focus_now
        &&& !a.list_windows
        &&& !a.list_rooms
    }
    &&& a.draft ==> a.image is None && !a.dry_run
    &&& !(a.focus_wait is Some && a.take_focus_now)
}

/// The fault says something true of the arguments.
pub open spec fn send_fault_holds(a: SendArguments, fault: ArgumentFault) -> bool {
    match fault {
        ArgumentFault::TargetMissing => !has_target(a),
        ArgumentFault::Conflict { first, second } => are_exclusive(first, second) && send_has(
            a,
            first,
        ) && send_has(a, second),
        ArgumentFault::Requires { first, second } => {
            &&& first == OptionName::BackgroundOnly
            &&& second == OptionName::NoOpen
            &&& a.background_only
            &&& !a.no_open
        },
        ArgumentFault::OutOfRange { option } => false,
    }
}

/// The option is given.
pub open spec fn send_has(a: SendArguments, option: OptionName) -> bool {
    match option {
        OptionName::Room => a.room is Some,
        OptionName::Chat => a.chat is Some,
        OptionName::Text => a.text is Some,
        OptionName::Image => a.image is Some,
        OptionName::ListWindows => a.list_windows,
        OptionName::ListRooms => a.list_rooms,
        OptionName::DryRun => a.dry_run,
        OptionName::NoOpen => a.no_open,
        OptionName::BackgroundOnly => a.background_only,
        OptionName::Draft => a.draft,
        OptionName::TakeFocusNow => a.take_focus_now,
        OptionName::FocusWait => a.focus_wait is Some,
        _ => false,
    }
}

/// Checks that the options of a send go together. A listing mode needs no target.
pub fn check_send(a: &SendArguments) -> (r: Result<(), ArgumentFault>)
    ensures
        r is Ok <==> is_valid_send(*a),
        r is Err ==> send_fault_holds(*a, r->Err_0),
{
    if a.room.is_none() && a.chat.is_none() && !a.list_windows && !a.list_rooms {
        return Err(ArgumentFault::TargetMissing);
    }
    if a.chat.is_some() && a.room.is_some() {
        return Err(ArgumentFault::Conflict { first: OptionName::Chat, second: OptionName::Room });
    }
    if a.image.is_some() && a.text.is_some() {
        return Err(ArgumentFault::Conflict { first: OptionName::Image, second: OptionName::Text });
    }
    if a.background_only {
        let first: OptionName = OptionName::BackgroundOnly;
        if !a.no_open {
            return Err(ArgumentFault::Requires { first, second: OptionName::NoOpen });
        }
        if a.image.is_some() {
            return Err(ArgumentFault::Conflict { first, second: OptionName::Image });
        }
        if a.draft {
            return Err(ArgumentFault::Conflict { first, second: OptionName::Draft });
        }
        if a.dry_run {
            return Err(ArgumentFault::Conflict { first, second: OptionName::DryRun });
        }
        if a.take_focus_now {
            return Err(ArgumentFault::Conflict { first, second: OptionName::TakeFocusNow });
        }
        if a.list_windows {
            return Err(ArgumentFault::Conflict { first, second: OptionName::ListWindows });
        }
        if a.list_rooms {
            return Err(ArgumentFault::Conflict { first, second: OptionName::ListRooms });
        }
    }
    if a.draft {
        let first: OptionName = OptionName::Draft;
        if a.image.is_some() {
            return Err(ArgumentFault::Conflict { first, second: OptionName::Image });
        }
        if a.dry_run {
            return Err(ArgumentFault::Conflict { first, second: OptionName::DryRun });
        }
    }
    if a.focus_wait.is_some() && a.take_focus_now {
        return Err(
            ArgumentFault::Conflict {
                first: OptionName::FocusWait,
                second: OptionName::TakeFocusNow,
            },
        );
    }
    Ok(())
}

/// What is wrong with the options of a watch: a chat is given or selected, not both; a reply that
/// opens nothing is a reply; and the numbers are within their ranges.
pub open spec fn watch_fault(a: WatchArguments) -> Option<ArgumentFault> {
    if a.chat is Some && a.select {
        Some(ArgumentFault::Conflict { first: OptionName::Chat, second: OptionName::Select })
    } else if a.reply_no_open && !a.reply {
        Some(ArgumentFault::Requires { first: OptionName::ReplyNoOpen, second: OptionName::Reply })
    } else if !(1 <= a.tail <= MAX_TAIL) {
        Some(ArgumentFault::OutOfRange { option: OptionName::Tail })
    } else if !(MIN_POLL_MS <= a.poll_ms <= MAX_POLL_MS) {
        Some(ArgumentFault::OutOfRange { option: OptionName::PollMs })
    } else if a.max_polls is Some && !(1 <= a.max_polls->0 <= MAX_POLLS) {
        Some(ArgumentFault::OutOfRange { option: OptionName::MaxPolls })
    } else {
        None
    }
}

/// Checks the options of a watch.
pub fn check_watch(a: &WatchArguments) -> (r: Result<(), ArgumentFault>)
    ensures
        r == match watch_fault(*a) {
            Some(fault) => Err::<(), _>(fault),
            None => Ok(()),
        },
{
    if a.chat.is_some() && a.select {
        return Err(
            ArgumentFault::Conflict { first: OptionName::Chat, second: OptionName::Select },
        );
    }
    if a.reply_no_open && !a.reply {
        return Err(
            ArgumentFault::Requires { first: OptionName::ReplyNoOpen, second: OptionName::Reply },
        );
    }
    if a.tail < 1 || a.tail > MAX_TAIL {
        return Err(ArgumentFault::OutOfRange { option: OptionName::Tail });
    }
    if a.poll_ms < MIN_POLL_MS || a.poll_ms > MAX_POLL_MS {
        return Err(ArgumentFault::OutOfRange { option: OptionName::PollMs });
    }
    match a.max_polls {
        Some(polls) => if polls < 1 || polls > MAX_POLLS {
            Err(ArgumentFault::OutOfRange { option: OptionName::MaxPolls })
        } else {
            Ok(())
        },
        None => Ok(()),
    }
}

fn check_limit(limit: usize, most: usize) -> (r: Result<(), ArgumentFault>)
    ensures
        r == if 1 <= limit <= most {
            Ok::<(), _>(())
        } else {
            Err(ArgumentFault::OutOfRange { option: OptionName::Limit })
        },
{
    if limit < 1 || limit > most {
        Err(ArgumentFault::OutOfRange { option: OptionName::Limit })
    } else {
        Ok(())
    }
}

/// The options of a command go together.
pub open spec fn is_valid_command(command: Commands) -> bool {
    match command {
        Commands::Sync { source, path, json, prune_preview, prune_deleted, touched } => !(
        prune_preview && prune_deleted),
        Commands::Search { command } => match command {
            SearchCommand::Keyword { query, limit, json } => 1 <= limit <= MAX_LIMIT,
            SearchCommand::Bm25 { query, limit, json } => 1 <= limit <= MAX_LIMIT,
            SearchCommand::Semantic { query, limit, json } => 1 <= limit <= MAX_LIMIT,
        },
        Commands::Media { command } => match command {
            MediaCommand::Get { chat, log, out, no_cdn, kinds, limit, json } => 1 <= limit
                <= MAX_LIMIT,
            MediaCommand::Backfill { chat, out, kinds, dry_run, max_bytes, limit, json } => 1
                <= limit <= MAX_BACKFILL_LIMIT,
        },
        Commands::Watch { arguments } => watch_fault(arguments) is None,
        Commands::Send { arguments } => is_valid_send(arguments),
        _ => true,
    }
}

/// Checks that the options of a command go together.
pub fn check_command(command: &Commands) -> (r: Result<(), ArgumentFault>)
    ensures
        r is Ok <==> is_valid_command(*command),
        r is Err ==> match *command {
            Commands::Sync { source, path, json, prune_preview, prune_deleted, touched } => r->Err_0
                == (ArgumentFault::Conflict {
                first: OptionName::PruneDeleted,
                second: OptionName::PrunePreview,
            }),
            Commands::Watch { arguments } => Some(r->Err_0) == watch_fault(arguments),
            Commands::Send { arguments } => send_fault_holds(arguments, r->Err_0),
            _ => r->Err_0 == (ArgumentFault::OutOfRange { option: OptionName::Limit }),
        },
{
    match command {
        Commands::Sync {
            source: _,
            path: _,
            json: _,
            prune_preview,
            prune_deleted,
            touched: _,
        } => if *prune_preview && *prune_deleted {
            Err(
                ArgumentFault::Conflict {
                    first: OptionName::PruneDeleted,
                    second: OptionName::PrunePreview,
                },
            )
        } else {
            Ok(())
        },
        Commands::Search { command } => match command {
            SearchCommand::Keyword { query: _, limit, json: _ } => check_limit(*limit, MAX_LIMIT),
            SearchCommand::Bm25 { query: _, limit, json: _ } => check_limit(*limit, MAX_LIMIT),
            SearchCommand::Semantic { query: _, limit, json: _ } => check_limit(*limit, MAX_LIMIT),
        },
        Commands::Media { command } => match command {
            MediaCommand::Get {
                chat: _,
                log: _,
                out: _,
                no_cdn: _,
                kinds: _,
                limit,
                json: _,
            } => check_limit(*limit, MAX_LIMIT),
            MediaCommand::Backfill {
                chat: _,
                out: _,
                kinds: _,
                dry_run: _,
                max_bytes: _,
                limit,
                json: _,
            } => check_limit(*limit, MAX_BACKFILL_LIMIT),
        },
        Commands::Watch { arguments } => check_watch(arguments),
        Commands::Send { arguments } => check_send(arguments),
        _ => Ok(()),
    }
}

/// A command with its source settled.
#[derive(Debug)]
#[allow(inconsistent_fields)]
pub enum Task {
    Doctor { macos_probe: bool, json: bool },
    Sync {
        source: String,
        path: Option<PathBuf>,
        json: bool,
        touched: bool,
        prune_preview: bool,
        prune_deleted: bool,
    },
    Index { full: bool, dry_run: bool, json: bool },
    Search { command: SearchCommand },
    Chunk { command: ChunkCommand },
    SourceChats { source: String, path: Option<PathBuf>, json: bool },
    Media { command: MediaCommand },
    Permissions { accessibility: bool, dry_run: bool, json: bool },
    Chunks { chat: String, json: bool },
    Transcript { chat: String, since: Option<String>, out: Option<PathBuf>, json: bool },
    Watch { source: String, arguments: WatchArguments },
    WipeIndex { yes: bool, json: bool },
    Send { arguments: SendArguments },
}

/// The source that was asked for, else the configured one.
pub open spec fn settled_source(source: Option<String>, configured: String) -> String {
    match source {
        Some(source) => source,
        None => configured,
    }
}

/// What a command leads to.
pub open spec fn task_of(command: Commands, configured: String) -> Task {
    match command {
        Commands::Doctor { macos_probe, json } => Task::Doctor { macos_probe, json },
        Commands::Sync { source, path, json, prune_preview, prune_deleted, touched } => Task::Sync {
            source: settled_source(source, configured),
            path,
            json,
            touched,
            prune_preview,
            prune_deleted,
        },
        Commands::Index { full, dry_run, json } => Task::Index { full, dry_run, json },
        Commands::Search { command } => Task::Search { command },
        Commands::Chunk { command } => Task::Chunk { command },
        Commands::Source { command } => match command {
            SourceCommand::Chats { source, path, json } => Task::SourceChats {
                source: settled_source(source, configured),
                path,
                json,
            },
        },
        Commands::Media { command } => Task::Media { command },
        Commands::Permissions { command } => match command {
            PermissionsCommand::Macos { accessibility, dry_run, json } => Task::Permissions {
                accessibility,
                dry_run,
                json,
            },
        },
        Commands::Chunks { chat, json } => Task::Chunks { chat, json },
        Commands::Transcript { chat, since, out, json } => Task::Transcript {
            chat,
            since,
            out,
            json,
        },
        Commands::Watch { arguments } => Task::Watch {
            source: settled_source(arguments.source, configured),
            arguments,
        },
        Commands::WipeIndex { yes, json } => Task::WipeIndex { yes, json },
        Commands::Send { arguments } => Task::Send { arguments },
    }
}

/// What a command leads to.
pub fn plan(command: Commands, configured: String) -> (r: Task)
    ensures
        r == task_of(command, configured),
{
    match command {
        Commands::Doctor { macos_probe, json } => Task::Doctor { macos_probe, json },
        Commands::Sync { source, path, json, prune_preview, prune_deleted, touched } => Task::Sync {
            source: match source {
                Some(source) => source,
                None => configured,
            },
            path,
            json,
            touched,
            prune_preview,
            prune_deleted,
        },
        Commands::Index { full, dry_run, json } => Task::Index { full, dry_run, json },
        Commands::Search { command } => Task::Search { command },
        Commands::Chunk { command } => Task::Chunk { command },
        Commands::Source { command } => match command {
            SourceCommand::Chats { source, path, json } => Task::SourceChats {
                source: match source {
                    Some(source) => source,
                    None => configured,
                },
                path,
                json,
            },
        },
        Commands::Media { command } => Task::Media { command },
        Commands::Permissions { command } => match command {
            PermissionsCommand::Macos { accessibility, dry_run, json } => Task::Permissions {
                accessibility,
                dry_run,
                json,
            },
        },
        Commands::Chunks { chat, json } => Task::Chunks { chat, json },
        Commands::Transcript { chat, since, out, json } => Task::Transcript {
            chat,
            since,
            out,
            json,
        },
        Commands::Watch { arguments } => {
            let source: String = match &arguments.source {
                Some(source) => source.clone(),
                None => configured,
            };
            Task::Watch { source, arguments }
        },
        Commands::WipeIndex { yes, json } => Task::WipeIndex { yes, json },
        Commands::Send { arguments } => Task::Send { arguments },
    }
}

/// A task does what its command asks: every option is handed on as it was given. Above all a sync
/// deletes exactly where deletion was asked for, and a preview never does.
pub proof fn lemma_task_keeps_what_was_asked(command: Commands, configured: String)
    ensures
        match command {
            Commands::Doctor { macos_probe, json } => task_of(command, configured) matches
                Task::Doctor { macos_probe: p, json: j } && p == macos_probe && j == json,
            Commands::Sync { source, path, json, prune_preview, prune_deleted, touched } => {
                task_of(command, configured) matches Task::Sync {
                    source: s,
                    path: p,
                    json: j,
                    touched: t,
                    prune_preview: previews,
                    prune_deleted: deletes,
                } && (source is Some ==> s == source->0) && (source is None ==> s == configured)
                    && p == path && j == json && t == touched && previews == prune_preview
                    && deletes == prune_deleted
            },
            Commands::Index { full, dry_run, json } => task_of(command, configured) matches
                Task::Index { full: f, dry_run: d, json: j } && f == full && d == dry_run && j
                == json,
            Commands::Search { command: asked } => task_of(command, configured) matches
                Task::Search { command: kept } && kept == asked,
            Commands::Chunk { command: asked } => task_of(command, configured) matches
                Task::Chunk { command: kept } && kept == asked,
            Commands::Source { command: SourceCommand::Chats { source, path, json } } => {
                task_of(command, configured) matches Task::SourceChats {
                    source: s,
                    path: p,
                    json: j,
                } && (source is Some ==> s == source->0) && (source is None ==> s == configured)
                    && p == path && j == json
            },
            Commands::Media { command: asked } => task_of(command, configured) matches
                Task::Media { command: kept } && kept == asked,
            Commands::Permissions {
                command: PermissionsCommand::Macos { accessibility, dry_run, json },
            } => task_of(command, configured) matches Task::Permissions {
                accessibility: a,
                dry_run: d,
                json: j,
            } && a == accessibility && d == dry_run && j == json,
            Commands::WipeIndex { yes, json } => task_of(command, configured) matches
                Task::WipeIndex { yes: y, json: j } && y == yes && j == json,
            Commands::Chunks { chat, json } => task_of(command, configured) matches Task::Chunks {
                chat: c,
                json: j,
            } && c == chat && j == json,
            Commands::Transcript { chat, since, out, json } => task_of(command, configured) matches
                Task::Transcript { chat: c, since: s, out: o, json: j } && c == chat && s == since
                && o == out && j == json,
            Commands::Watch { arguments } => {
                task_of(command, configured) matches Task::Watch { source: s, arguments: kept }
                    && kept == arguments && (arguments.source is Some ==> s
                    == arguments.source->0) && (arguments.source is None ==> s == configured)
            },
            Commands::Send { arguments } => task_of(command, configured) matches Task::Send {
                arguments: kept,
            } && kept == arguments,
        },
{
}

/// A valid sync never both previews and deletes, neither as asked nor as it is carried out.
pub proof fn lemma_preview_deletes_nothing(command: Commands, configured: String)
    requires
        is_valid_command(command),
    ensures
        task_of(command, configured) matches Task::Sync {
            source,
            path,
            json,
            touched,
            prune_preview,
            prune_deleted,
        } ==> !(prune_preview && prune_deleted),
{
}

/// JSON is written where its flag says so. A watch writes it where the format is JSON lines, and
/// without a format unless a chat is selected from a list; nothing else about it matters.
pub proof fn lemma_json_by_flag_or_format(command: Commands)
    ensures
        match command {
            Commands::Doctor { macos_probe, json } => wants_json(command) == json,
            Commands::Sync { source, path, json, prune_preview, prune_deleted, touched } => {
                wants_json(command) == json
            },
            Commands::Index { full, dry_run, json } => wants_json(command) == json,
            Commands::Search { command: SearchCommand::Keyword { query, limit, json } } => {
                wants_json(command) == json
            },
            Commands::Search { command: SearchCommand::Bm25 { query, limit, json } } => {
                wants_json(command) == json
            },
            Commands::Search { command: SearchCommand::Semantic { query, limit, json } } => {
                wants_json(command) == json
            },
            Commands::Chunk {
                command: ChunkCommand::Get { chunk_id, include_message_ids, redact, json },
            } => wants_json(command) == json,
            Commands::Chunk { command: ChunkCommand::Context { chunk_id, json } } => {
                wants_json(command) == json
            },
            Commands::Chunk { command: ChunkCommand::Parent { chunk_id, json } } => {
                wants_json(command) == json
            },
            Commands::Source { command: SourceCommand::Chats { source, path, json } } => {
                wants_json(command) == json
            },
            Commands::Media {
                command: MediaCommand::Get { chat, log, out, no_cdn, kinds, limit, json },
            } => wants_json(command) == json,
            Commands::Media {
                command: MediaCommand::Backfill {
                    chat,
                    out,
                    kinds,
                    dry_run,
                    max_bytes,
                    limit,
                    json,
                },
            } => wants_json(command) == json,
            Commands::Permissions {
                command: PermissionsCommand::Macos { accessibility, dry_run, json },
            } => wants_json(command) == json,
            Commands::WipeIndex { yes, json } => wants_json(command) == json,
            Commands::Chunks { chat, json } => wants_json(command) == json,
            Commands::Transcript { chat, since, out, json } => wants_json(command) == json,
            Commands::Watch { arguments } => {
                &&& arguments.format == Some(WatchOutputFormat::Jsonl) ==> wants_json(command)
                &&& arguments.format == Some(WatchOutputFormat::Text) ==> !wants_json(command)
                &&& arguments.format is None ==> wants_json(command) == !arguments.select
            },
            Commands::Send { arguments } => wants_json(command) == arguments.json,
        },
{
}

/// A send goes together exactly where it has a target or only lists, no two options that exclude
/// each other are both given, and what is sent in the background only opens nothing.
pub proof fn lemma_send_options_exclude_each_other(a: SendArguments)
    ensures
        is_valid_send(a) <==> {
            &&& a.room is Some || a.chat is Some || a.list_windows || a.list_rooms
            &&& a.background_only ==> a.no_open
            &&& forall|first: OptionName, second: OptionName| #[trigger]
                are_exclusive(first, second) ==> !(send_has(a, first) && send_has(a, second))
        },
{
    if is_valid_send(a) {
        assert forall|first: OptionName, second: OptionName| #[trigger]
            are_exclusive(first, second) implies !(send_has(a, first) && send_has(a, second)) by {}
    } else {
        assert(are_exclusive(OptionName::Chat, OptionName::Room));
        assert(are_exclusive(OptionName::Image, OptionName::Text));
        assert(are_exclusive(OptionName::BackgroundOnly, OptionName::Image));
        assert(are_exclusive(OptionName::BackgroundOnly, OptionName::Draft));
        assert(are_exclusive(OptionName::BackgroundOnly, OptionName::DryRun));
        assert(are_exclusive(OptionName::BackgroundOnly, OptionName::TakeFocusNow));
        assert(are_exclusive(OptionName::BackgroundOnly, OptionName::ListWindows));
        assert(are_exclusive(OptionName::BackgroundOnly, OptionName::ListRooms));
        assert(are_exclusive(OptionName::Draft, OptionName::Image));
        assert(are_exclusive(OptionName::Draft, OptionName::DryRun));
        assert(are_exclusive(OptionName::FocusWait, OptionName::TakeFocusNow));
    }
}

/// What a valid send rules out, option by option: an address of two kinds, two contents, a draft
/// that is no text or only looks, and a background send that shows or lists anything.
pub proof fn lemma_valid_send_is_unambiguous(a: SendArguments)
    requires
        is_valid_send(a),
    ensures
        a.room is Some || a.chat is Some || a.list_windows || a.list_rooms,
        a.chat is None || a.room is None,
        a.image is None || a.text is None,
        a.draft ==> a.image is None && !a.dry_run && !a.background_only,
        a.background_only ==> a.no_open && a.image is None && !a.dry_run && !a.take_focus_now
            && !a.list_windows && !a.list_rooms,
        a.take_focus_now ==> a.focus_wait is None,
{
}

/// An ordinary send is never refused: one to a single room or chat with a single content, that is
/// neither a draft nor in the background and says at most one thing about the focus.
pub proof fn lemma_plain_send_is_valid(a: SendArguments)
    requires
        (a.room is Some) != (a.chat is Some),
        a.image is None || a.text is None,
        !a.draft,
        !a.background_only,
        !a.take_focus_now || a.focus_wait is None,
    ensures
        is_valid_send(a),
{
}

/// The options of a watch are accepted exactly where a chat is not both given and selected, a
/// reply that opens nothing is a reply, and the numbers are in their documented ranges. A fault
/// that is reported is one of the arguments.
pub proof fn lemma_watch_ranges(a: WatchArguments)
    ensures
        watch_fault(a) is None <==> {
            &&& !(a.chat is Some && a.select)
            &&& a.reply_no_open ==> a.reply
            &&& 1 <= a.tail <= 1_000
            &&& 250 <= a.poll_ms <= 60_000
            &&& a.max_polls is Some ==> 1 <= a.max_polls->0 <= 100_000
        },
        match watch_fault(a) {
            Some(ArgumentFault::Conflict { first, second }) => {
                first == OptionName::Chat && second == OptionName::Select && a.chat is Some
                    && a.select
            },
            Some(ArgumentFault::Requires { first, second }) => {
                first == OptionName::ReplyNoOpen && second == OptionName::Reply && a.reply_no_open
                    && !a.reply
            },
            Some(ArgumentFault::OutOfRange { option }) => {
                ||| option == OptionName::Tail && !(1 <= a.tail <= 1_000)
                ||| option == OptionName::PollMs && !(250 <= a.poll_ms <= 60_000)
                ||| option == OptionName::MaxPolls && a.max_polls is Some && !(1
                    <= a.max_polls->0 <= 100_000)
            },
            Some(ArgumentFault::TargetMissing) => false,
            None => true,
        },
{
}

/// A command is refused only for what its options say: a sync that both previews and deletes, a
/// number of results outside its documented range, and faults of a watch or a send.
pub proof fn lemma_command_ranges(command: Commands)
    ensures
        match command {
            Commands::Sync { source, path, json, prune_preview, prune_deleted, touched } => {
                is_valid_command(command) == (!prune_preview || !prune_deleted)
            },
            Commands::Search { command: SearchCommand::Keyword { query, limit, json } } => {
                is_valid_command(command) == (0 < limit <= 100_000)
            },
            Commands::Search { command: SearchCommand::Bm25 { query, limit, json } } => {
                is_valid_command(command) == (0 < limit <= 100_000)
            },
            Commands::Search { command: SearchCommand::Semantic { query, limit, json } } => {
                is_valid_command(command) == (0 < limit <= 100_000)
            },
            Commands::Media {
                command: MediaCommand::Get { chat, log, out, no_cdn, kinds, limit, json },
            } => is_valid_command(command) == (0 < limit <= 100_000),
            Commands::Media {
                command: MediaCommand::Backfill {
                    chat,
                    out,
                    kinds,
                    dry_run,
                    max_bytes,
                    limit,
                    json,
                },
            } => is_valid_command(command) == (0 < limit <= 1_000_000),
            Commands::Watch { arguments } => is_valid_command(command) == (watch_fault(
                arguments,
            ) is None),
            Commands::Send { arguments } => is_valid_command(command) == is_valid_send(arguments),
            _ => is_valid_command(command),
        },
{
}

/// A planned sync previews exactly where a preview was asked for and deletes exactly where deletion
/// was; so does every other planned task keep its own flags.
pub proof fn lemma_planned_sync_does_what_was_asked(
    command: Commands,
    configured: String,
    task: Task,
)
    requires
        call_ensures(plan, (command, configured), task),
    ensures
        task is Sync <==> command is Sync,
        command is Sync ==> task->Sync_prune_preview == command->Sync_prune_preview
            && task->Sync_prune_deleted == command->Sync_prune_deleted && task->Sync_touched
            == command->Sync_touched && task->Sync_json == command->Sync_json && task->Sync_path
            == command->Sync_path,
        task is WipeIndex <==> command is WipeIndex,
        command is WipeIndex ==> task->WipeIndex_yes == command->WipeIndex_yes,
        task is Index <==> command is Index,
        command is Index ==> task->Index_full == command->Index_full && task->Index_dry_run
            == command->Index_dry_run,
        task is Send <==> command is Send,
        command is Send ==> task->Send_arguments == command->Send_arguments,
        task is Watch <==> command is Watch,
        command is Watch ==> task->Watch_arguments == command->Watch_arguments,
{
    lemma_task_keeps_what_was_asked(command, configured);
}

} // verus!
