//! The course of a watch: what each poll reads, announces and leaves to the archive.
use crate::snapshot::{
    announced, announces, is_in_time_order, last_seen_at, lemma_edits_change_the_source, never_seen,
    seen_in, Announcement, FingerprintView, WatchEvent, WatchSnapshot, WatchState,
    WATCH_EVENT_SCHEMA_VERSION,
};
use crate::text::same_text;
use crate::types::{optional_text, RawMessage, TextKey};
use crate::watch::{chat_count, chats_of, format_human_message_line, human_line};
use vstd::prelude::*;

verus! {

/// How a watch writes what it sees.
#[derive(Debug, Clone, Copy, PartialEq, Eq, Structural)]
pub enum WatchOutputFormat {
    Jsonl,
    Text,
}

/// The format that was asked for; else text for a person and JSON lines for a program.
pub open spec fn chosen_format(
    human_default: bool,
    format: Option<WatchOutputFormat>,
) -> WatchOutputFormat {
    match format {
        Some(format) => format,
        None => if human_default {
            WatchOutputFormat::Text
        } else {
            WatchOutputFormat::Jsonl
        },
    }
}

/// The format that was asked for; else text for a person and JSON lines for a program.
pub fn effective_watch_format(human_default: bool, format: Option<WatchOutputFormat>) -> (r:
    WatchOutputFormat)
    ensures
        r == chosen_format(human_default, format),
{
    match format {
        Some(format) => format,
        None => if human_default {
            WatchOutputFormat::Text
        } else {
            WatchOutputFormat::Jsonl
        },
    }
}

/// What is left of a poll interval, in nanoseconds: polls start a whole interval apart however
/// long each takes, and a poll that overruns is followed at once.
pub fn remaining_poll_delay(deadline_nanos: u128, now_nanos: u128) -> (r: u128)
    ensures
        r == if deadline_nanos >= now_nanos {
            deadline_nanos - now_nanos
        } else {
            0
        },
{
    deadline_nanos.saturating_sub(now_nanos)
}

/// The last `tail` of a list.
pub open spec fn tail_of<T>(list: Seq<T>, tail: nat) -> Seq<T> {
    if list.len() > tail {
        list.skip(list.len() - tail)
    } else {
        list
    }
}

/// The last `tail` events.
pub fn tail_events(events: Vec<WatchEvent>, tail: usize) -> (r: Vec<WatchEvent>)
    ensures
        r@ == tail_of(events@, tail as nat),
{
    let mut list: Vec<WatchEvent> = events;
    let n: usize = list.len();
    if n > tail {
        list.split_off(n - tail)
    } else {
        list
    }
}

/// The name that the first message of a chat gives it.
pub open spec fn chat_name_in(messages: Seq<RawMessage>, chat_id: Seq<char>) -> Option<Seq<char>>
    decreases messages.len(),
{
    if messages.len() == 0 {
        None
    } else if messages[0].chat_id@ == chat_id {
        Some(messages[0].chat_name@)
    } else {
        chat_name_in(messages.drop_first(), chat_id)
    }
}

/// The name that the first message of a chat gives it.
pub fn find_chat_name(messages: &[RawMessage], chat_id: &str) -> (r: Option<String>)
    ensures
        optional_text(r) == chat_name_in(messages@, chat_id@),
{
    let mut i: usize = 0;
    assert(messages@.skip(0) =~= messages@);
    while i < messages.len()
        invariant
            i <= messages.len(),
            chat_name_in(messages@, chat_id@) == chat_name_in(messages@.skip(i as int), chat_id@),
        decreases messages.len() - i,
    {
        assert(messages@.skip(i as int)[0] == messages@[i as int]);
        if same_text(messages[i].chat_id.as_str(), chat_id) {
            return Some(messages[i].chat_name.clone());
        }
        assert(messages@.skip(i as int).drop_first() =~= messages@.skip(i + 1));
        i = i + 1;
    }
    None
}

/// What a watch was asked to do.
#[derive(Debug)]
pub struct WatchOptions {
    pub format: WatchOutputFormat,
    pub chat_id: Option<String>,
    pub replay_existing: bool,
    pub tail: usize,
    pub max_polls: Option<u64>,
}

/// What the archive says after a poll.
#[derive(Debug, Clone, Copy, PartialEq, Eq, Structural)]
pub struct PollArchiveState {
    pub archive_changed: bool,
    pub archived_messages: usize,
    pub chunks: usize,
}

/// The size of the archive.
#[derive(Debug, Clone, Copy, PartialEq, Eq, Structural)]
pub struct ArchiveCounts {
    pub messages: usize,
    pub chunks: usize,
}

/// What is owed to the archive after a poll: a sync where the source changed, else a note that
/// the archive is fresh. Without the counts of an earlier sync there is nothing to note.
#[derive(Debug, Clone, Copy, PartialEq, Eq, Structural)]
pub enum ArchiveStep {
    Sync,
    RecordFreshness { archived_messages: usize, chunks: usize },
    CountsMissing,
}

/// The archive after a step: a sync says it itself, and a fresh archive did not change.
pub open spec fn archive_after(
    step: ArchiveStep,
    synced: Option<PollArchiveState>,
) -> PollArchiveState {
    match step {
        ArchiveStep::RecordFreshness { archived_messages, chunks } => PollArchiveState {
            archive_changed: false,
            archived_messages,
            chunks,
        },
        _ => synced->0,
    }
}

/// What a poll of the source shows.
#[derive(Debug)]
pub struct Observation {
    pub events: Vec<WatchEvent>,
    pub observed_messages: usize,
    pub observed_chats: usize,
    pub step: ArchiveStep,
}

/// How a poll ended.
#[derive(Debug, PartialEq, Eq)]
pub enum ReplyPollOutcome {
    Completed {
        poll: u64,
        events: Vec<WatchEvent>,
        archive_changed: bool,
        observed_messages: usize,
        observed_chats: usize,
        emitted_messages: usize,
        archived_messages: usize,
        chunks: usize,
        selected_chat_name: Option<String>,
    },
    Error { poll: u64, error: String },
}

/// The course of one watch.
#[derive(Debug)]
pub struct WatchSession {
    options: WatchOptions,
    snapshot: WatchSnapshot,
    counts: Option<ArchiveCounts>,
    chat_name: Option<String>,
    poll: u64,
    sync_owed: bool,
}

impl WatchSession {
    /// What the watch was asked to do.
    pub closed spec fn asked(&self) -> WatchOptions {
        self.options
    }

    /// The polls begun so far.
    pub closed spec fn polls(&self) -> u64 {
        self.poll
    }

    /// Whether a poll was observed yet.
    pub closed spec fn has_observed(&self) -> bool {
        self.snapshot.is_initialized()
    }

    /// What the last observed poll held.
    pub closed spec fn seen(&self) -> Map<TextKey, FingerprintView> {
        self.snapshot.seen()
    }

    /// The message and chunk counts of the archive, once they are known.
    pub closed spec fn archive_counts(&self) -> Option<ArchiveCounts> {
        self.counts
    }

    /// The name of the watched chat, once it is known.
    pub closed spec fn label(&self) -> Option<Seq<char>> {
        optional_text(self.chat_name)
    }

    /// A sync is owed that was not reported back yet.
    pub closed spec fn owes_sync(&self) -> bool {
        self.sync_owed
    }

    /// Once a poll was observed and nothing is owed, the counts are known.
    pub closed spec fn wf(&self) -> bool {
        self.snapshot.is_initialized() && !self.sync_owed ==> self.counts is Some
    }

    /// Starts a watch.
    pub fn new(options: WatchOptions, selected_chat_name: Option<String>) -> (r: Self)
        ensures
            r.wf(),
            r.asked() == options,
            r.polls() == 0,
            !r.has_observed(),
            r.seen() == Map::<TextKey, FingerprintView>::empty(),
            r.archive_counts() is None,
            r.label() == optional_text(selected_chat_name),
            !r.owes_sync(),
    {
        WatchSession {
            options,
            snapshot: WatchSnapshot::default(),
            counts: None,
            chat_name: selected_chat_name,
            poll: 0,
            sync_owed: false,
        }
    }

    /// Everything but the poll number is the same.
    pub open spec fn same_but_poll(&self, other: &WatchSession) -> bool {
        &&& self.asked() == other.asked()
        &&& self.has_observed() == other.has_observed()
        &&& self.seen() == other.seen()
        &&& self.archive_counts() == other.archive_counts()
        &&& self.label() == other.label()
        &&& self.owes_sync() == other.owes_sync()
    }

    /// Begins the next poll and returns its number.
    pub fn begin_poll(&mut self) -> (r: u64)
        requires
            old(self).wf(),
            old(self).polls() < u64::MAX,
        ensures
            final(self).wf(),
            r == old(self).polls() + 1,
            final(self).polls() == r,
            final(self).same_but_poll(old(self)),
    {
        self.poll = self.poll + 1;
        self.poll
    }

    /// Whether existing messages are announced on the first poll: on demand, and always to a
    /// person who watches one chat.
    pub open spec fn replays(&self) -> bool {
        let options = self.asked();
        options.replay_existing || options.format == WatchOutputFormat::Text
            && options.chat_id is Some
    }

    /// What is new in a poll: what changed since the last one, in the watched chat if there is
    /// one.
    pub open spec fn news(&self, messages: Seq<RawMessage>) -> Seq<Announcement> {
        announced(
            self.seen(),
            !self.has_observed(),
            self.replays(),
            optional_text(self.asked().chat_id),
            messages,
        )
    }

    /// What the archive is owed once the source was seen as `now`.
    pub open spec fn owed_step(&self, now: Map<TextKey, FingerprintView>) -> ArchiveStep {
        if !self.has_observed() || self.seen() != now {
            ArchiveStep::Sync
        } else {
            match self.archive_counts() {
                Some(counts) => ArchiveStep::RecordFreshness {
                    archived_messages: counts.messages,
                    chunks: counts.chunks,
                },
                None => ArchiveStep::CountsMissing,
            }
        }
    }

    /// How many events of this poll are shown: on a person's first poll the tail, else all.
    pub open spec fn shown(&self, all: Seq<WatchEvent>) -> Seq<WatchEvent> {
        if self.asked().format == WatchOutputFormat::Text && self.polls() == 1 {
            tail_of(all, self.asked().tail as nat)
        } else {
            all
        }
    }

    /// Takes in what a poll read from the source.
    pub fn observe(&mut self, messages: &[RawMessage]) -> (r: Observation)
        requires
            old(self).wf(),
        ensures
            final(self).wf(),
            final(self).asked() == old(self).asked(),
            final(self).polls() == old(self).polls(),
            final(self).has_observed(),
            final(self).seen() == seen_in(messages@),
            final(self).archive_counts() == old(self).archive_counts(),
            final(self).label() == if old(self).label() is None
                && old(self).asked().chat_id is Some {
                chat_name_in(messages@, old(self).asked().chat_id->0@)
            } else {
                old(self).label()
            },
            r.step == old(self).owed_step(seen_in(messages@)),
            final(self).owes_sync() == (old(self).owes_sync() || r.step == ArchiveStep::Sync),
            r.observed_messages == messages@.len(),
            r.observed_chats == chats_of(messages@).len(),
            exists|all: Seq<WatchEvent>|
                {
                    &&& #[trigger] announces(all, old(self).polls(), old(self).news(messages@))
                    &&& r.events@ == old(self).shown(all)
                },
            is_in_time_order(r.events@),
    {
        if self.chat_name.is_none() {
            match &self.options.chat_id {
                Some(chat_id) => {
                    self.chat_name = find_chat_name(messages, chat_id.as_str());
                },
                None => {},
            }
        }
        let text: bool = match self.options.format {
            WatchOutputFormat::Text => true,
            WatchOutputFormat::Jsonl => false,
        };
        let replay: bool = self.options.replay_existing || (text
            && self.options.chat_id.is_some());
        let filter: Option<&str> = match &self.options.chat_id {
            Some(chat_id) => Some(chat_id.as_str()),
            None => None,
        };
        let all: Vec<WatchEvent> = self.snapshot.diff(messages, self.poll, replay, filter);
        assert(announces(all@, old(self).polls(), old(self).news(messages@)));
        let ghost every = all@;
        let events: Vec<WatchEvent> = if text && self.poll == 1 {
            tail_events(all, self.options.tail)
        } else {
            all
        };
        assert(is_in_time_order(events@)) by {
            let skipped = every.len() - events@.len();
            assert forall|i: int| 0 <= i < events@.len() implies #[trigger] events@[i]
                == every[skipped + i] by {}
        }
        let step: ArchiveStep = if self.snapshot.source_changed() {
            self.sync_owed = true;
            ArchiveStep::Sync
        } else {
            match self.counts {
                Some(counts) => ArchiveStep::RecordFreshness {
                    archived_messages: counts.messages,
                    chunks: counts.chunks,
                },
                None => ArchiveStep::CountsMissing,
            }
        };
        Observation {
            events,
            observed_messages: messages.len(),
            observed_chats: chat_count(messages),
            step,
        }
    }

    /// Closes a poll. Where a sync was owed, `synced` is what the archive said to it; where the
    /// archive was fresh, nothing changed there and the counts are those that were noted.
    pub fn complete(&mut self, seen: Observation, synced: Option<PollArchiveState>) -> (r:
        ReplyPollOutcome)
        requires
            old(self).wf(),
            seen.step == ArchiveStep::Sync ==> synced is Some,
            seen.step != ArchiveStep::CountsMissing,
        ensures
            final(self).wf(),
            final(self).asked() == old(self).asked(),
            final(self).polls() == old(self).polls(),
            final(self).has_observed() == old(self).has_observed(),
            final(self).seen() == old(self).seen(),
            final(self).label() == old(self).label(),
            final(self).archive_counts() == Some(
                (ArchiveCounts {
                    messages: archive_after(seen.step, synced).archived_messages,
                    chunks: archive_after(seen.step, synced).chunks,
                }),
            ),
            !final(self).owes_sync(),
            seen.step is RecordFreshness ==> !archive_after(seen.step, synced).archive_changed,
            r matches ReplyPollOutcome::Completed {
                poll,
                events,
                archive_changed,
                observed_messages,
                observed_chats,
                emitted_messages,
                archived_messages,
                chunks,
                selected_chat_name,
            } && poll == old(self).polls() && events == seen.events && archive_changed
                == archive_after(seen.step, synced).archive_changed && observed_messages
                == seen.observed_messages && observed_chats == seen.observed_chats
                && emitted_messages == seen.events@.len() && archived_messages == archive_after(
                seen.step,
                synced,
            ).archived_messages && chunks == archive_after(seen.step, synced).chunks
                && optional_text(selected_chat_name) == old(self).label(),
    {
        let archive: PollArchiveState = match seen.step {
            ArchiveStep::RecordFreshness { archived_messages, chunks } => PollArchiveState {
                archive_changed: false,
                archived_messages,
                chunks,
            },
            _ => synced.unwrap(),
        };
        self.counts = Some(
            ArchiveCounts { messages: archive.archived_messages, chunks: archive.chunks },
        );
        self.sync_owed = false;
        let emitted_messages: usize = seen.events.len();
        ReplyPollOutcome::Completed {
            poll: self.poll,
            events: seen.events,
            archive_changed: archive.archive_changed,
            observed_messages: seen.observed_messages,
            observed_chats: seen.observed_chats,
            emitted_messages,
            archived_messages: archive.archived_messages,
            chunks: archive.chunks,
            selected_chat_name: self.chat_name.clone(),
        }
    }

    /// The outcome of a poll whose source or archive failed.
    pub fn fail(&self, error: String) -> (r: ReplyPollOutcome)
        ensures
            r == (ReplyPollOutcome::Error { poll: self.polls(), error }),
    {
        ReplyPollOutcome::Error { poll: self.poll, error }
    }

    /// Whether as many polls were made as were asked for.
    pub fn is_finished(&self) -> (r: bool)
        ensures
            r == (self.asked().max_polls is Some && self.polls() >= self.asked().max_polls->0),
    {
        match self.options.max_polls {
            Some(limit) => self.poll >= limit,
            None => false,
        }
    }

    /// The event that says that a poll starts to read.
    pub fn reading_event(&self) -> (r: WatchEvent)
        ensures
            r == state_event(
                WatchState::Reading,
                self.polls(),
                self.seen().dom().len() as usize,
                0,
                0,
                None,
                None,
            ),
    {
        WatchEvent::State {
            schema_version: WATCH_EVENT_SCHEMA_VERSION,
            state: WatchState::Reading,
            poll: self.poll,
            observed_messages: self.snapshot.seen_count(),
            observed_chats: 0,
            emitted_messages: 0,
            archived_messages: None,
            chunks: None,
        }
    }
}

/// A state event.
pub open spec fn state_event(
    state: WatchState,
    poll: u64,
    observed_messages: usize,
    observed_chats: usize,
    emitted_messages: usize,
    archived_messages: Option<usize>,
    chunks: Option<usize>,
) -> WatchEvent {
    WatchEvent::State {
        schema_version: WATCH_EVENT_SCHEMA_VERSION,
        state,
        poll,
        observed_messages,
        observed_chats,
        emitted_messages,
        archived_messages,
        chunks,
    }
}

/// The event that opens a watch.
pub fn started_event() -> (r: WatchEvent)
    ensures
        r == state_event(WatchState::Started, 0, 0, 0, 0, None, None),
{
    WatchEvent::State {
        schema_version: WATCH_EVENT_SCHEMA_VERSION,
        state: WatchState::Started,
        poll: 0,
        observed_messages: 0,
        observed_chats: 0,
        emitted_messages: 0,
        archived_messages: None,
        chunks: None,
    }
}

/// The event that closes a completed poll: `Synced` if anything was announced or archived, else
/// `Idle`. A poll that failed has none.
pub open spec fn closing_state(outcome: ReplyPollOutcome) -> Option<WatchEvent> {
    match outcome {
        ReplyPollOutcome::Completed {
            poll,
            events,
            archive_changed,
            observed_messages,
            observed_chats,
            emitted_messages,
            archived_messages,
            chunks,
            selected_chat_name,
        } => Some(
            state_event(
                if emitted_messages > 0 || archive_changed {
                    WatchState::Synced
                } else {
                    WatchState::Idle
                },
                poll,
                observed_messages,
                observed_chats,
                emitted_messages,
                Some(archived_messages),
                Some(chunks),
            ),
        ),
        ReplyPollOutcome::Error { poll, error } => None,
    }
}

/// The event that closes a completed poll.
pub fn closing_event(outcome: &ReplyPollOutcome) -> (r: Option<WatchEvent>)
    ensures
        r == closing_state(*outcome),
{
    match outcome {
        ReplyPollOutcome::Completed {
            poll,
            events: _,
            archive_changed,
            observed_messages,
            observed_chats,
            emitted_messages,
            archived_messages,
            chunks,
            selected_chat_name: _,
        } => {
            let state: WatchState = if *emitted_messages > 0 || *archive_changed {
                WatchState::Synced
            } else {
                WatchState::Idle
            };
            Some(
                WatchEvent::State {
                    schema_version: WATCH_EVENT_SCHEMA_VERSION,
                    state,
                    poll: *poll,
                    observed_messages: *observed_messages,
                    observed_chats: *observed_chats,
                    emitted_messages: *emitted_messages,
                    archived_messages: Some(*archived_messages),
                    chunks: Some(*chunks),
                },
            )
        },
        ReplyPollOutcome::Error { poll: _, error: _ } => None,
    }
}

/// The line that a person reads for an event; state events have none.
pub fn text_line(event: &WatchEvent) -> (r: Option<String>)
    ensures
        optional_text(r) == match *event {
            WatchEvent::Message { schema_version, change, poll, message } => Some(
                human_line(change, message),
            ),
            _ => None,
        },
{
    match event {
        WatchEvent::Message { schema_version: _, change, poll: _, message } => Some(
            format_human_message_line(*change, message),
        ),
        _ => None,
    }
}

/// As long as every sync that is owed is reported back before the next poll, the counts of the
/// archive are never missing: each poll ends in a sync or in a note of freshness.
pub proof fn lemma_counts_never_missing(
    session: WatchSession,
    now: Map<TextKey, FingerprintView>,
)
    requires
        session.wf(),
        !session.owes_sync(),
    ensures
        session.owed_step(now) != ArchiveStep::CountsMissing,
{
}

/// The first poll is always archived.
pub proof fn lemma_first_poll_is_archived(
    session: WatchSession,
    now: Map<TextKey, FingerprintView>,
)
    requires
        !session.has_observed(),
    ensures
        session.owed_step(now) == ArchiveStep::Sync,
{
}

/// A poll that shows the source as it was is not archived again; the archive is noted as fresh
/// with the counts that it had.
pub proof fn lemma_redundant_poll_is_not_archived(session: WatchSession)
    requires
        session.wf(),
        session.has_observed(),
        !session.owes_sync(),
    ensures
        session.owed_step(session.seen()) == (ArchiveStep::RecordFreshness {
            archived_messages: session.archive_counts()->0.messages,
            chunks: session.archive_counts()->0.chunks,
        }),
{
}

/// A format that was asked for is used; without one, a person reads text and a program JSON lines.
pub proof fn lemma_format_is_the_asked_one(human_default: bool, format: WatchOutputFormat)
    ensures
        chosen_format(human_default, Some(format)) == format,
        chosen_format(true, None) == WatchOutputFormat::Text,
        chosen_format(false, None) == WatchOutputFormat::Jsonl,
{
}

/// The tail of a list is its last items, as many as asked for or as there are, in their order.
pub proof fn lemma_tail_is_the_end<T>(list: Seq<T>, tail: nat)
    ensures
        tail_of(list, tail).len() == if list.len() < tail {
            list.len()
        } else {
            tail
        },
        forall|i: int|
            0 <= i < tail_of(list, tail).len() ==> (#[trigger] tail_of(list, tail)[i])
                == list[list.len() - tail_of(list, tail).len() + i],
{
}

/// A chat is called what its first message calls it; a chat without messages has no name.
pub proof fn lemma_first_message_names_the_chat(
    messages: Seq<RawMessage>,
    chat_id: Seq<char>,
    k: int,
)
    ensures
        0 <= k < messages.len() && messages[k].chat_id@ == chat_id && (forall|i: int|
            0 <= i < k ==> (#[trigger] messages[i]).chat_id@ != chat_id) ==> chat_name_in(
            messages,
            chat_id,
        ) == Some(messages[k].chat_name@),
        (forall|i: int|
            0 <= i < messages.len() ==> (#[trigger] messages[i]).chat_id@ != chat_id)
            ==> chat_name_in(messages, chat_id) is None,
    decreases messages.len(),
{
    if messages.len() > 0 {
        let rest = messages.drop_first();
        lemma_first_message_names_the_chat(rest, chat_id, k - 1);
        if 0 < k < messages.len() && messages[k].chat_id@ == chat_id && (forall|i: int|
            0 <= i < k ==> (#[trigger] messages[i]).chat_id@ != chat_id) {
            assert(messages[0].chat_id@ != chat_id);
            assert forall|i: int| 0 <= i < k - 1 implies (#[trigger] rest[i]).chat_id@
                != chat_id by {
                assert(messages[i + 1].chat_id@ != chat_id);
            }
        }
        if forall|i: int| 0 <= i < messages.len() ==> (#[trigger] messages[i]).chat_id@ != chat_id {
            assert(messages[0].chat_id@ != chat_id);
            assert forall|i: int| 0 <= i < rest.len() implies (#[trigger] rest[i]).chat_id@
                != chat_id by {
                assert(messages[i + 1].chat_id@ != chat_id);
            }
        }
    }
}

/// A fresh archive did not change and keeps its counts; a synced one is what the sync reported.
pub proof fn lemma_archive_is_what_was_reported(
    messages: usize,
    chunks: usize,
    synced: PollArchiveState,
)
    ensures
        ({
            let fresh = archive_after(
                ArchiveStep::RecordFreshness { archived_messages: messages, chunks },
                None,
            );
            &&& !fresh.archive_changed
            &&& fresh.archived_messages == messages
            &&& fresh.chunks == chunks
        }),
        archive_after(ArchiveStep::Sync, Some(synced)) == synced,
{
}

/// Existing messages are told to whoever asks for them and to a person who watches one chat; a
/// program and a person who watches everything are told only on request.
pub proof fn lemma_who_is_told_the_past(session: WatchSession)
    ensures
        session.asked().replay_existing ==> session.replays(),
        !session.asked().replay_existing && session.asked().format == WatchOutputFormat::Jsonl
            ==> !session.replays(),
        !session.asked().replay_existing && session.asked().chat_id is None ==> !session.replays(),
        session.asked().format == WatchOutputFormat::Text && session.asked().chat_id is Some
            ==> session.replays(),
{
}

/// The news of a poll are messages of the poll, and of the watched chat where one is watched.
pub proof fn lemma_news_are_of_the_watched_chat(
    session: WatchSession,
    messages: Seq<RawMessage>,
    k: int,
)
    requires
        0 <= k < session.news(messages).len(),
    ensures
        messages.contains(session.news(messages)[k].message),
        session.asked().chat_id is Some ==> session.news(messages)[k].message.chat_id@
            == session.asked().chat_id->0@,
{
    lemma_announced_of_chat(
        session.seen(),
        !session.has_observed(),
        session.replays(),
        optional_text(session.asked().chat_id),
        messages,
        k,
    );
}

proof fn lemma_announced_of_chat(
    known: Map<TextKey, FingerprintView>,
    initial: bool,
    replay_existing: bool,
    filter: Option<Seq<char>>,
    messages: Seq<RawMessage>,
    k: int,
)
    requires
        0 <= k < announced(known, initial, replay_existing, filter, messages).len(),
    ensures
        messages.contains(
            announced(known, initial, replay_existing, filter, messages)[k].message,
        ),
        filter is Some ==> announced(
            known,
            initial,
            replay_existing,
            filter,
            messages,
        )[k].message.chat_id@ == filter->0,
    decreases messages.len(),
{
    let all = announced(known, initial, replay_existing, filter, messages);
    let front = announced(known, initial, replay_existing, filter, messages.drop_last());
    if k < front.len() {
        lemma_announced_of_chat(known, initial, replay_existing, filter, messages.drop_last(), k);
        let i = messages.drop_last().index_of(front[k].message);
        assert(messages[i] == all[k].message);
    } else {
        assert(messages[messages.len() - 1] == all[k].message);
    }
}

/// A message that reads otherwise than in the poll before is archived: a sync is owed.
pub proof fn lemma_edits_are_archived(
    session: WatchSession,
    before: Seq<RawMessage>,
    now: Seq<RawMessage>,
    p: int,
    i: int,
)
    requires
        session.seen() == seen_in(before),
        0 <= i < now.len(),
        last_seen_at(now, i, now[i]),
        never_seen(before, now[i]) || last_seen_at(before, p, now[i]) && before[p].text@
            != now[i].text@,
    ensures
        session.owed_step(seen_in(now)) == ArchiveStep::Sync,
{
    lemma_edits_change_the_source(before, now, p, i);
}

/// A program is shown every event, and so is a person after the first poll; on the first poll a
/// person is shown the last ones, as many as asked for.
pub proof fn lemma_only_the_first_screen_is_cut(session: WatchSession, all: Seq<WatchEvent>)
    ensures
        session.asked().format == WatchOutputFormat::Jsonl ==> session.shown(all) == all,
        session.polls() != 1 ==> session.shown(all) == all,
        all.len() <= session.asked().tail ==> session.shown(all) == all,
        session.asked().format == WatchOutputFormat::Text && session.polls() == 1 && all.len()
            > session.asked().tail ==> session.shown(all).len() == session.asked().tail && forall|
            i: int,
        |
            0 <= i < session.asked().tail ==> (#[trigger] session.shown(all)[i]) == all[all.len()
                - session.asked().tail + i],
{
}

/// A completed poll is closed with its own numbers: as synced where something was announced or
/// archived, else as idle. A failed poll is not closed.
pub proof fn lemma_closing_event_counts_the_poll(outcome: ReplyPollOutcome)
    ensures
        outcome is Error ==> closing_state(outcome) is None,
        outcome is Completed ==> {
            let event = closing_state(outcome)->0;
            &&& closing_state(outcome) is Some
            &&& event is State
            &&& event->State_schema_version == 1
            &&& event->State_poll == outcome->Completed_poll
            &&& event->State_observed_messages == outcome->Completed_observed_messages
            &&& event->State_observed_chats == outcome->Completed_observed_chats
            &&& event->State_emitted_messages == outcome->Completed_emitted_messages
            &&& event->State_archived_messages == Some(outcome->Completed_archived_messages)
            &&& event->State_chunks == Some(outcome->Completed_chunks)
            &&& event->State_state == WatchState::Synced <==> outcome->Completed_emitted_messages
                > 0 || outcome->Completed_archive_changed
            &&& event->State_state == WatchState::Idle <==> outcome->Completed_emitted_messages == 0
                && !outcome->Completed_archive_changed
        },
{
}

} // verus!
