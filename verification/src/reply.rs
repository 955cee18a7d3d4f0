//! Answering from the terminal: what a submitted line does, one send at a time, and how polls and
//! sends are told in the conversation.
use crate::digits::{decimal, decimal_text, size_text};
use crate::input::{ActionView, ReplyTerminalAction};
use crate::layout::ChatEntry;
use crate::reply_ui::{
    are_offsets, bounded, chat_notes, note_views, status_entry, tells, told, HistoryEntry, NoteView,
    ReplyUiState,
};
use crate::session::ReplyPollOutcome;
use crate::snapshot::{WatchEvent, WatchMessageChange};
use crate::text::{
    is_blank, is_white, lemma_blank_is_all_white, sanitize_terminal_text, sanitized, trimmed,
};
use crate::types::{optional_text, RawMessage};
use crate::watch::{
    lemma_direct_lines_are_sent, lemma_words_that_quit_and_help, parse_reply_command, reply_command,
    CommandView, ReplyCommand,
};
use vstd::prelude::*;

verus! {

/// Seconds that a reply waits for the focus: Enter is explicit intent, so it waits only briefly.
pub const REPLY_FOCUS_WAIT_SECS: u64 = 2;

pub const REPLY_SENDING: &'static str = "katok: 전송 중…";

pub const REPLY_BUSY: &'static str = "katok: 이전 전송이 끝나기를 기다리는 중입니다";

pub const REPLY_CONTINUES: &'static str = "katok: 전송은 백그라운드에서 계속됩니다";

pub const REPLY_UNKNOWN: &'static str = "katok: not sent; unknown slash command";

pub const REPLY_HELP: &'static str =
    "katok: Enter send; Left/Right/Home/End or Ctrl-A/B/E/F move; Backspace/Delete, Ctrl-W/U/K edit; Up/Down/PgUp/PgDn scroll; Ctrl-C/Ctrl-D or /quit quit";

/// A text to send to a chat.
#[derive(Debug, PartialEq, Eq)]
pub struct ReplySendRequest {
    pub chat_id: String,
    pub body: String,
    pub no_open: bool,
}

/// Whether a send is under way. There is never more than one.
#[derive(Debug, Clone, Copy, PartialEq, Eq, Structural)]
pub struct ReplySendState {
    pub in_flight: bool,
}

impl ReplySendState {
    /// Nothing is being sent.
    pub fn new() -> (r: Self)
        ensures
            !r.in_flight,
    {
        ReplySendState { in_flight: false }
    }
}

/// What an action leads to: the end of the watch, or a text to send.
#[derive(Debug, PartialEq, Eq)]
pub struct ReplyStep {
    pub quit: bool,
    pub send: Option<ReplySendRequest>,
}

/// Why an action cannot be carried out.
#[derive(Debug, Clone, Copy, PartialEq, Eq, Structural)]
pub enum ReplyRefusal {
    NoSelectedChat,
}

impl ReplyRefusal {
    /// The refusal in words.
    pub fn message(&self) -> (r: String)
        ensures
            r@ == "watch --reply has no selected chat"@,
    {
        "watch --reply has no selected chat".to_owned()
    }
}

/// The step starts nothing and goes on.
pub open spec fn goes_on(r: Result<ReplyStep, ReplyRefusal>) -> bool {
    r is Ok && !r->Ok_0.quit && r->Ok_0.send is None
}

/// The watch ends. A send under way is not waited for, which is said.
pub open spec fn quits(
    before: ReplyUiState,
    after: ReplyUiState,
    in_flight: bool,
    r: Result<ReplyStep, ReplyRefusal>,
) -> bool {
    &&& r is Ok && r->Ok_0.quit && r->Ok_0.send is None
    &&& if in_flight {
        after.received(&before, status_entry(REPLY_CONTINUES@))
    } else {
        after.unchanged(&before)
    }
}

/// The text was taken back into the line, as a paste, and the reason given.
pub open spec fn taken_back(before: ReplyUiState, after: ReplyUiState, line: Seq<char>) -> bool {
    exists|restored: ReplyUiState|
        {
            &&& restored.same_conversation(&before)
            &&& restored.draft_view() == before.draft_view().pasted(line)
            &&& #[trigger] after.received(&restored, status_entry(REPLY_BUSY@))
        }
}

/// What an action does, given whether a send is under way: the surface before and after, whether
/// a send is under way then, and what is to be done.
pub open spec fn answers(
    action: ActionView,
    chat_id: Option<Seq<char>>,
    no_open: bool,
    terminal_height: u16,
    before: ReplyUiState,
    flying: bool,
    after: ReplyUiState,
    flying_after: bool,
    r: Result<ReplyStep, ReplyRefusal>,
) -> bool {
    match action {
        ActionView::Quit => quits(before, after, flying, r) && flying_after == flying,
        ActionView::Scroll(delta) => {
            &&& goes_on(r)
            &&& after.moved(&before, delta, terminal_height)
            &&& flying_after == flying
        },
        ActionView::Submit(line) => match reply_command(1, line) {
            CommandView::Send(body) => if flying {
                &&& goes_on(r)
                &&& taken_back(before, after, line)
                &&& flying_after
            } else {
                match chat_id {
                    None => {
                        &&& r == Err::<ReplyStep, _>(ReplyRefusal::NoSelectedChat)
                        &&& after.unchanged(&before)
                        &&& !flying_after
                    },
                    Some(chat) => {
                        &&& r is Ok && !r->Ok_0.quit && r->Ok_0.send is Some
                        &&& r->Ok_0.send->0.chat_id@ == chat
                        &&& r->Ok_0.send->0.body@ == body
                        &&& r->Ok_0.send->0.no_open == no_open
                        &&& after.received(&before, status_entry(REPLY_SENDING@))
                        &&& flying_after
                    },
                }
            },
            CommandView::Quit => quits(before, after, flying, r) && flying_after == flying,
            CommandView::Help => {
                &&& goes_on(r)
                &&& after.received(&before, status_entry(REPLY_HELP@))
                &&& flying_after == flying
            },
            CommandView::Empty => {
                &&& goes_on(r)
                &&& after.unchanged(&before)
                &&& flying_after == flying
            },
            CommandView::Ignored => {
                &&& goes_on(r)
                &&& after.received(&before, status_entry(REPLY_UNKNOWN@))
                &&& flying_after == flying
            },
        },
    }
}

fn finish_reply_quit(ui: &mut ReplyUiState, in_flight: bool) -> (r: Result<ReplyStep, ReplyRefusal>)
    requires
        old(ui).wf(),
    ensures
        final(ui).wf(),
        quits(*old(ui), *final(ui), in_flight, r),
{
    if in_flight {
        ui.push_system(REPLY_CONTINUES);
    }
    Ok(ReplyStep { quit: true, send: None })
}

/// Carries out one action of the user.
pub fn process_reply_action(
    ui: &mut ReplyUiState,
    action: ReplyTerminalAction,
    chat_id: Option<&str>,
    no_open: bool,
    terminal_height: u16,
    sends: &mut ReplySendState,
) -> (r: Result<ReplyStep, ReplyRefusal>)
    requires
        old(ui).wf(),
    ensures
        final(ui).wf(),
        answers(
            action@,
            crate::snapshot::filter_text(chat_id),
            no_open,
            terminal_height,
            *old(ui),
            old(sends).in_flight,
            *final(ui),
            final(sends).in_flight,
            r,
        ),
{
    let line: String = match action {
        ReplyTerminalAction::Quit => {
            return finish_reply_quit(ui, sends.in_flight);
        },
        ReplyTerminalAction::Scroll(delta) => {
            ui.scroll(delta, terminal_height);
            return Ok(ReplyStep { quit: false, send: None });
        },
        ReplyTerminalAction::Submit(line) => line,
    };
    match parse_reply_command(1, line.as_str()) {
        ReplyCommand::Send(body) => {
            if sends.in_flight {
                ui.paste(line.as_str());
                let ghost restored = *ui;
                ui.push_system(REPLY_BUSY);
                assert(ui.received(&restored, status_entry(REPLY_BUSY@)));
                return Ok(ReplyStep { quit: false, send: None });
            }
            match chat_id {
                None => Err(ReplyRefusal::NoSelectedChat),
                Some(chat) => {
                    ui.push_system(REPLY_SENDING);
                    sends.in_flight = true;
                    Ok(
                        ReplyStep {
                            quit: false,
                            send: Some(
                                ReplySendRequest { chat_id: chat.to_owned(), body, no_open },
                            ),
                        },
                    )
                },
            }
        },
        ReplyCommand::Quit => finish_reply_quit(ui, sends.in_flight),
        ReplyCommand::Help => {
            ui.push_system(REPLY_HELP);
            Ok(ReplyStep { quit: false, send: None })
        },
        ReplyCommand::Empty => Ok(ReplyStep { quit: false, send: None }),
        ReplyCommand::Ignored => {
            ui.push_system(REPLY_UNKNOWN);
            Ok(ReplyStep { quit: false, send: None })
        },
    }
}

/// Sends are one at a time: an action starts one only while none is under way, and is then the
/// one that is; no action ends one.
pub proof fn lemma_one_send_at_a_time(
    action: ActionView,
    chat_id: Option<Seq<char>>,
    no_open: bool,
    terminal_height: u16,
    before: ReplyUiState,
    flying: bool,
    after: ReplyUiState,
    flying_after: bool,
    r: Result<ReplyStep, ReplyRefusal>,
)
    requires
        answers(
            action,
            chat_id,
            no_open,
            terminal_height,
            before,
            flying,
            after,
            flying_after,
            r,
        ),
    ensures
        r is Ok && r->Ok_0.send is Some ==> !flying && flying_after,
        flying ==> flying_after,
        flying_after && !flying ==> r is Ok && r->Ok_0.send is Some,
{
}

/// A line submitted while a send is under way is not lost: it is back in the line, which was
/// emptied when it was submitted, and nothing is sent.
pub proof fn lemma_busy_keeps_the_line(
    line: Seq<char>,
    chat_id: Option<Seq<char>>,
    no_open: bool,
    terminal_height: u16,
    before: ReplyUiState,
    after: ReplyUiState,
    flying_after: bool,
    r: Result<ReplyStep, ReplyRefusal>,
)
    requires
        before.draft_view().text.len() == 0,
        before.draft_view().cursor == 0,
        crate::text::control_free(line),
        reply_command(1, line) is Send,
        answers(
            ActionView::Submit(line),
            chat_id,
            no_open,
            terminal_height,
            before,
            true,
            after,
            flying_after,
            r,
        ),
    ensures
        goes_on(r),
        after.draft_view().text == line,
        after.draft_view().cursor == line.len(),
{
    crate::draft::lemma_paste_plain_text(line);
    let d = before.draft_view();
    assert(d.before() + line + d.after() =~= line);
}

/// The line that tells how a send ended.
pub open spec fn send_line(outcome: Result<usize, String>) -> Seq<char> {
    match outcome {
        Ok(chars) => "katok: sent reply ("@ + decimal(chars as nat) + " chars)"@,
        Err(error) => "katok: send failed: "@ + error@,
    }
}

/// Tells how a send ended; the next may start.
pub fn settle_reply_send(
    ui: &mut ReplyUiState,
    sends: &mut ReplySendState,
    outcome: Result<usize, String>,
)
    requires
        old(ui).wf(),
    ensures
        final(ui).wf(),
        !final(sends).in_flight,
        final(ui).received(old(ui), status_entry(send_line(outcome))),
{
    sends.in_flight = false;
    let line: String = match &outcome {
        Ok(chars) => {
            let mut line: String = "katok: sent reply (".to_owned();
            line.append(size_text(*chars).as_str());
            line.append(" chars)");
            line
        },
        Err(error) => {
            let mut line: String = "katok: send failed: ".to_owned();
            line.append(error.as_str());
            line
        },
    };
    ui.push_system(line.as_str());
}

/// A message as the conversation shows it: the nickname or else the id, the text or else the
/// kind, and a word where it was edited.
pub open spec fn chat_note(change: WatchMessageChange, m: RawMessage) -> NoteView {
    NoteView::Chat {
        timestamp: m.timestamp,
        sender: if trimmed(m.sender_nickname@).len() == 0 {
            m.sender_id@
        } else {
            m.sender_nickname@
        },
        text: (if trimmed(m.text@).len() == 0 {
            "<"@ + m.message_type@ + ">"@
        } else {
            m.text@
        }) + if change == WatchMessageChange::Updated {
            " (updated)"@
        } else {
            ""@
        },
    }
}

/// A message as the conversation shows it.
pub fn chat_entry(change: WatchMessageChange, message: &RawMessage) -> (r: ChatEntry)
    ensures
        HistoryEntry::Chat(r)@ == chat_note(change, *message),
{
    proof {
        reveal_strlit("");
    }
    let sender: String = if is_blank(message.sender_nickname.as_str()) {
        message.sender_id.clone()
    } else {
        message.sender_nickname.clone()
    };
    let mut text: String = if is_blank(message.text.as_str()) {
        let mut kind: String = "<".to_owned();
        kind.append(message.message_type.as_str());
        kind.append(">");
        kind
    } else {
        message.text.clone()
    };
    assert(text@ + ""@ =~= text@);
    if change == WatchMessageChange::Updated {
        text.append(" (updated)");
    }
    ChatEntry { timestamp: message.timestamp, sender, text }
}

/// What the watched chat is called: its name made inert, or a stand-in.
pub open spec fn chat_label(name: Option<Seq<char>>) -> Seq<char> {
    match name {
        Some(name) => sanitized(name),
        None => "selected chat"@,
    }
}

fn label_text(name: &Option<String>) -> (r: String)
    ensures
        r@ == chat_label(optional_text(*name)),
{
    match name {
        Some(name) => sanitize_terminal_text(name.as_str()),
        None => "selected chat".to_owned(),
    }
}

/// The line that tells what is watched.
pub open spec fn watching_text(
    name: Option<Seq<char>>,
    emitted: nat,
    messages: nat,
    chats: nat,
) -> Seq<char> {
    "katok: watching "@ + chat_label(name) + "; displayed "@ + decimal(emitted)
        + " recent message(s); observed "@ + decimal(messages) + " message(s) across "@ + decimal(
        chats,
    ) + " chat(s)"@
}

/// The line that tells what is watched.
pub fn watching_line(name: &Option<String>, emitted: usize, messages: usize, chats: usize) -> (r:
    String)
    ensures
        r@ == watching_text(optional_text(*name), emitted as nat, messages as nat, chats as nat),
{
    let mut line: String = "katok: watching ".to_owned();
    line.append(label_text(name).as_str());
    line.append("; displayed ");
    line.append(size_text(emitted).as_str());
    line.append(" recent message(s); observed ");
    line.append(size_text(messages).as_str());
    line.append(" message(s) across ");
    line.append(size_text(chats).as_str());
    line.append(" chat(s)");
    line
}

/// The messages among events, as the conversation shows them.
pub open spec fn event_notes(events: Seq<WatchEvent>) -> Seq<NoteView>
    decreases events.len(),
{
    if events.len() == 0 {
        Seq::empty()
    } else {
        let front = event_notes(events.drop_last());
        match events.last() {
            WatchEvent::Message { schema_version, change, poll, message } => front.push(
                chat_note(change, message),
            ),
            _ => front,
        }
    }
}

/// What the conversation shows of a poll: its messages, and after the first poll what is watched
/// and where replies go. A poll that failed is told with its error.
pub open spec fn outcome_notes(outcome: ReplyPollOutcome) -> Seq<NoteView> {
    match outcome {
        ReplyPollOutcome::Completed {
            poll,
            events,
            archive_changed,
            observed_messages,
            observed_chats,
            emitted_messages,
            archived_messages,
            chunks,
            selected_chat_name,
        } => {
            let notes = event_notes(events@);
            let name = optional_text(selected_chat_name);
            if poll == 1 {
                notes.push(
                    NoteView::System {
                        text: watching_text(
                            name,
                            emitted_messages as nat,
                            observed_messages as nat,
                            observed_chats as nat,
                        ),
                    },
                ).push(NoteView::System { text: "katok: replies target "@ + chat_label(name) })
            } else {
                notes
            }
        },
        ReplyPollOutcome::Error { poll, error } => seq![
            NoteView::System {
                text: "katok: watch poll "@ + decimal(poll as nat) + " failed: "@ + error@,
            },
        ],
    }
}

/// What the conversation shows of a poll.
pub fn poll_notes(outcome: &ReplyPollOutcome) -> (notes: Vec<HistoryEntry>)
    ensures
        note_views(notes@) == outcome_notes(*outcome),
{
    let mut notes: Vec<HistoryEntry> = Vec::new();
    match outcome {
        ReplyPollOutcome::Completed {
            poll,
            events,
            archive_changed: _,
            observed_messages,
            observed_chats,
            emitted_messages,
            archived_messages: _,
            chunks: _,
            selected_chat_name,
        } => {
            assert(note_views(notes@) =~= event_notes(events@.take(0)));
            for i in 0..events.len()
                invariant
                    note_views(notes@) == event_notes(events@.take(i as int)),
            {
                let ghost before = notes@;
                assert(events@.take(i + 1).drop_last() =~= events@.take(i as int));
                match &events[i] {
                    WatchEvent::Message { schema_version: _, change, poll: _, message } => {
                        let entry: HistoryEntry = HistoryEntry::Chat(chat_entry(*change, message));
                        let ghost view = entry@;
                        notes.push(entry);
                        assert(note_views(notes@) =~= note_views(before).push(view));
                    },
                    _ => {},
                }
            }
            assert(events@.take(events@.len() as int) =~= events@);
            if *poll == 1 {
                let ghost before = notes@;
                let first: HistoryEntry = HistoryEntry::System(
                    watching_line(
                        selected_chat_name,
                        *emitted_messages,
                        *observed_messages,
                        *observed_chats,
                    ),
                );
                let mut target: String = "katok: replies target ".to_owned();
                target.append(label_text(selected_chat_name).as_str());
                let second: HistoryEntry = HistoryEntry::System(target);
                let ghost views = (first@, second@);
                notes.push(first);
                notes.push(second);
                assert(note_views(notes@) =~= note_views(before).push(views.0).push(views.1));
            }
        },
        ReplyPollOutcome::Error { poll, error } => {
            let mut line: String = "katok: watch poll ".to_owned();
            line.append(decimal_text(*poll).as_str());
            line.append(" failed: ");
            line.append(error.as_str());
            let note: HistoryEntry = HistoryEntry::System(line);
            let ghost view = note@;
            notes.push(note);
            assert(note_views(notes@) =~= seq![view]);
        },
    }
    notes
}

/// Tells a poll in the conversation.
pub fn render_reply_poll_outcome(ui: &mut ReplyUiState, outcome: &ReplyPollOutcome)
    requires
        old(ui).wf(),
    ensures
        final(ui).wf(),
        final(ui).draft_view() == old(ui).draft_view(),
        final(ui).top() is Some == old(ui).top() is Some,
        final(ui).unread() == if old(ui).top() is Some {
            bounded(old(ui).unread() + chat_notes(outcome_notes(*outcome)))
        } else {
            old(ui).unread()
        },
        exists|offsets: Seq<i32>, states: Seq<ReplyUiState>|
            {
                &&& are_offsets(offsets)
                &&& #[trigger] tells(states, outcome_notes(*outcome), offsets)
                &&& states.first() == *old(ui)
                &&& states.last() == *final(ui)
                &&& final(ui).history() == told(
                    old(ui).history(),
                    outcome_notes(*outcome),
                    offsets,
                )
            },
{
    let notes: Vec<HistoryEntry> = poll_notes(outcome);
    ui.push_notes(&notes);
}

/// How a watch with replies goes on after a poll.
#[derive(Debug, PartialEq, Eq)]
pub enum PumpStep {
    Continue,
    Finished,
    Failed(String),
}

/// How a watch with replies goes on after a poll: it ends after the last poll that was asked for
/// and fails with a poll that failed.
pub fn after_outcome(outcome: ReplyPollOutcome, max_polls: Option<u64>) -> (r: PumpStep)
    ensures
        match outcome {
            ReplyPollOutcome::Completed {
                poll,
                events,
                archive_changed,
                observed_messages,
                observed_chats,
                emitted_messages,
                archived_messages,
                chunks,
                selected_chat_name,
            } => r == if max_polls is Some && poll >= max_polls->0 {
                PumpStep::Finished
            } else {
                PumpStep::Continue
            },
            ReplyPollOutcome::Error { poll, error } => r == PumpStep::Failed(error),
        },
{
    match outcome {
        ReplyPollOutcome::Completed {
            poll,
            events: _,
            archive_changed: _,
            observed_messages: _,
            observed_chats: _,
            emitted_messages: _,
            archived_messages: _,
            chunks: _,
            selected_chat_name: _,
        } => match max_polls {
            Some(limit) => if poll >= limit {
                PumpStep::Finished
            } else {
                PumpStep::Continue
            },
            None => PumpStep::Continue,
        },
        ReplyPollOutcome::Error { poll: _, error } => PumpStep::Failed(error),
    }
}

/// A line that does not start with a slash is sent to the watched chat as it was typed, without
/// the white space at its ends, as long as nothing else is being sent.
pub proof fn lemma_typed_line_is_sent_to_the_chat(
    line: Seq<char>,
    chat: Seq<char>,
    no_open: bool,
    terminal_height: u16,
    before: ReplyUiState,
    after: ReplyUiState,
    flying_after: bool,
    r: Result<ReplyStep, ReplyRefusal>,
)
    requires
        trimmed(line).len() > 0,
        trimmed(line)[0] != '/',
        answers(
            ActionView::Submit(line),
            Some(chat),
            no_open,
            terminal_height,
            before,
            false,
            after,
            flying_after,
            r,
        ),
    ensures
        r is Ok,
        !r->Ok_0.quit,
        r->Ok_0.send is Some,
        r->Ok_0.send->0.chat_id@ == chat,
        r->Ok_0.send->0.body@ == trimmed(line),
        r->Ok_0.send->0.no_open == no_open,
        flying_after,
        after.draft_view() == before.draft_view(),
{
    lemma_direct_lines_are_sent(1, line);
}

/// Only a submitted line sends anything, and only quitting, by a key or by its words, ends the
/// watch; no other action does either.
pub proof fn lemma_only_asked_for_sends_and_quits(
    action: ActionView,
    chat_id: Option<Seq<char>>,
    no_open: bool,
    terminal_height: u16,
    before: ReplyUiState,
    flying: bool,
    after: ReplyUiState,
    flying_after: bool,
    r: Result<ReplyStep, ReplyRefusal>,
)
    requires
        answers(
            action,
            chat_id,
            no_open,
            terminal_height,
            before,
            flying,
            after,
            flying_after,
            r,
        ),
    ensures
        r is Ok && r->Ok_0.send is Some ==> action is Submit && chat_id
            == Some(r->Ok_0.send->0.chat_id@),
        r is Ok && r->Ok_0.quit <==> action is Quit || action is Submit && (trimmed(action->Submit_0)
            == "/quit"@ || trimmed(action->Submit_0) == "/exit"@ || trimmed(action->Submit_0)
            == "/q"@),
        r is Err <==> action is Submit && reply_command(1, action->Submit_0) is Send && !flying
            && chat_id is None,
{
    if action is Submit {
        lemma_words_that_quit_and_help(1, action->Submit_0);
    }
}

/// How a send ended is told truly: with the number of characters where it succeeded, with the
/// error at the end of the line where it failed.
pub proof fn lemma_send_result_is_told(chars: usize, error: String)
    ensures
        send_line(Ok(chars)).take(19) == "katok: sent reply ("@,
        send_line(Ok(chars)).subrange(19, 19 + decimal(chars as nat).len() as int) == decimal(
            chars as nat,
        ),
        send_line(Err(error)).take(20) == "katok: send failed: "@,
        send_line(Err(error)).skip(20) == error@,
{
    reveal_strlit("katok: sent reply (");
    reveal_strlit("katok: send failed: ");
    assert("katok: sent reply ("@.len() == 19);
    assert("katok: send failed: "@.len() == 20);
    assert(send_line(Ok(chars)).take(19) =~= "katok: sent reply ("@);
    assert(send_line(Ok(chars)).subrange(19, 19 + decimal(chars as nat).len() as int) =~= decimal(
        chars as nat,
    ));
    assert(send_line(Err(error)).take(20) =~= "katok: send failed: "@);
    assert(send_line(Err(error)).skip(20) =~= error@);
}

/// The conversation shows a message with its time, its sender and its whole text; where nothing
/// can be seen of the nickname the id stands for it, where nothing can be seen of the text the
/// kind does, and an edit is marked behind the text.
pub proof fn lemma_note_shows_the_message(change: WatchMessageChange, m: RawMessage)
    ensures
        ({
            let note = chat_note(change, m);
            let seen = exists|i: int| 0 <= i < m.text@.len() && !is_white(#[trigger] m.text@[i]);
            let named = exists|i: int|
                0 <= i < m.sender_nickname@.len() && !is_white(#[trigger] m.sender_nickname@[i]);
            &&& note is Chat
            &&& note->timestamp == m.timestamp
            &&& named ==> note->sender == m.sender_nickname@
            &&& !named ==> note->sender == m.sender_id@
            &&& seen ==> note->Chat_text.take(m.text@.len() as int) == m.text@
            &&& seen && change != WatchMessageChange::Updated ==> note->Chat_text == m.text@
            &&& seen && change == WatchMessageChange::Updated ==> note->Chat_text.skip(
                m.text@.len() as int,
            ) == " (updated)"@
            &&& !seen ==> note->Chat_text.subrange(1, 1 + m.message_type@.len() as int)
                == m.message_type@
        }),
{
    reveal_strlit("");
    reveal_strlit("<");
    reveal_strlit(">");
    lemma_blank_is_all_white(m.text@);
    lemma_blank_is_all_white(m.sender_nickname@);
    let text = chat_note(change, m)->Chat_text;
    if trimmed(m.text@).len() == 0 {
        assert(text.subrange(1, 1 + m.message_type@.len() as int) =~= m.message_type@);
    } else {
        assert(text.take(m.text@.len() as int) =~= m.text@);
        if change == WatchMessageChange::Updated {
            assert(text.skip(m.text@.len() as int) =~= " (updated)"@);
        } else {
            assert(text =~= m.text@);
        }
    }
}

/// The line on what is watched names the chat and gives its three counts in their places: what is
/// displayed, the messages observed, the chats they come from.
pub proof fn lemma_watching_line_gives_the_counts(
    name: Option<Seq<char>>,
    emitted: nat,
    messages: nat,
    chats: nat,
)
    ensures
        ({
            let line = watching_text(name, emitted, messages, chats);
            let a = 16 + chat_label(name).len() as int;
            let b = a + 12 + decimal(emitted).len();
            let c = b + 29 + decimal(messages).len();
            &&& line.subrange(16, a) == chat_label(name)
            &&& line.subrange(a, a + 12) == "; displayed "@
            &&& line.subrange(a + 12, b) == decimal(emitted)
            &&& line.subrange(b, b + 29) == " recent message(s); observed "@
            &&& line.subrange(b + 29, c) == decimal(messages)
            &&& line.subrange(c, c + 19) == " message(s) across "@
            &&& line.subrange(c + 19, c + 19 + decimal(chats).len()) == decimal(chats)
        }),
{
    reveal_strlit("katok: watching ");
    reveal_strlit("; displayed ");
    reveal_strlit(" recent message(s); observed ");
    reveal_strlit(" message(s) across ");
    reveal_strlit(" chat(s)");
    let line = watching_text(name, emitted, messages, chats);
    let a = 16 + chat_label(name).len() as int;
    let b = a + 12 + decimal(emitted).len();
    let c = b + 29 + decimal(messages).len();
    assert("katok: watching "@.len() == 16);
    assert("; displayed "@.len() == 12);
    assert(" recent message(s); observed "@.len() == 29);
    assert(" message(s) across "@.len() == 19);
    assert(line.subrange(16, a) =~= chat_label(name));
    assert(line.subrange(a, a + 12) =~= "; displayed "@);
    assert(line.subrange(a + 12, b) =~= decimal(emitted));
    assert(line.subrange(b, b + 29) =~= " recent message(s); observed "@);
    assert(line.subrange(b + 29, c) =~= decimal(messages));
    assert(line.subrange(c, c + 19) =~= " message(s) across "@);
    assert(line.subrange(c + 19, c + 19 + decimal(chats).len()) =~= decimal(chats));
}

/// The conversation shows every announced message once, in the order of the events, and nothing
/// for the events that are no messages.
pub proof fn lemma_every_message_is_noted(events: Seq<WatchEvent>)
    ensures
        event_notes(events) == events.filter(|event: WatchEvent| event is Message).map_values(
            |event: WatchEvent| chat_note(event->change, event->message),
        ),
    decreases events.len(),
{
    reveal(Seq::filter);
    let kept = |event: WatchEvent| event is Message;
    let noted = |event: WatchEvent| chat_note(event->change, event->message);
    if events.len() > 0 {
        lemma_every_message_is_noted(events.drop_last());
        let front = events.drop_last().filter(kept);
        let last = events.last();
        assert(front.push(last).map_values(noted) =~= front.map_values(noted).push(noted(last)));
    } else {
        assert(events.filter(kept).map_values(noted) =~= Seq::empty());
    }
}

/// A poll is told by its messages; the first one also by what is watched and where replies go, a
/// failed one by its number and its error alone.
pub proof fn lemma_poll_is_told(outcome: ReplyPollOutcome)
    ensures
        outcome is Completed && outcome->Completed_poll != 1 ==> outcome_notes(outcome)
            == event_notes(outcome->events@),
        outcome is Completed && outcome->Completed_poll == 1 ==> {
            let notes = outcome_notes(outcome);
            let n = event_notes(outcome->events@).len() as int;
            let label = chat_label(optional_text(outcome->selected_chat_name));
            &&& notes.len() == n + 2
            &&& notes.take(n) == event_notes(outcome->events@)
            &&& notes[n] is System && notes[n + 1] is System
            &&& notes[n]->System_text.subrange(16, 16 + label.len() as int) == label
            &&& notes[n + 1]->System_text.skip(22) == label
        },
        outcome is Error ==> {
            let notes = outcome_notes(outcome);
            let number = decimal(outcome->Error_poll as nat);
            &&& notes.len() == 1
            &&& notes[0] is System
            &&& notes[0]->System_text.subrange(18, 18 + number.len() as int) == number
            &&& notes[0]->System_text.skip(18 + number.len() as int + 9) == outcome->error@
        },
{
    reveal_strlit("katok: replies target ");
    reveal_strlit("katok: watch poll ");
    reveal_strlit(" failed: ");
    assert("katok: replies target "@.len() == 22);
    assert("katok: watch poll "@.len() == 18);
    assert(" failed: "@.len() == 9);
    let notes = outcome_notes(outcome);
    match outcome {
        ReplyPollOutcome::Completed {
            poll,
            events,
            archive_changed,
            observed_messages,
            observed_chats,
            emitted_messages,
            archived_messages,
            chunks,
            selected_chat_name,
        } => {
            if poll == 1 {
                let n = event_notes(events@).len() as int;
                let name = optional_text(selected_chat_name);
                lemma_watching_line_gives_the_counts(
                    name,
                    emitted_messages as nat,
                    observed_messages as nat,
                    observed_chats as nat,
                );
                assert(notes.take(n) =~= event_notes(events@));
                assert(notes[n + 1]->System_text.skip(22) =~= chat_label(name));
            }
        },
        ReplyPollOutcome::Error { poll, error } => {
            let number = decimal(poll as nat);
            let text = notes[0]->System_text;
            assert(text.subrange(18, 18 + number.len() as int) =~= number);
            assert(text.skip(18 + number.len() as int + 9) =~= error@);
        },
    }
}

/// Quitting says that a send goes on exactly where one is under way, and touches nothing else.
pub proof fn lemma_quitting_names_a_send_under_way(
    before: ReplyUiState,
    after: ReplyUiState,
    in_flight: bool,
    r: Result<ReplyStep, ReplyRefusal>,
)
    requires
        quits(before, after, in_flight, r),
    ensures
        r is Ok && r->Ok_0.quit && r->Ok_0.send is None,
        !in_flight ==> after.history() == before.history(),
        in_flight ==> after.history().len() > 0 && after.history().last().entry is System
            && after.history().last().entry->System_text == sanitized(REPLY_CONTINUES@),
        after.draft_view() == before.draft_view(),
{
}

/// A chat without a name has a stand-in; any other is called by its name, made inert.
pub proof fn lemma_label_names_the_chat(name: Seq<char>)
    ensures
        chat_label(Some(name)) == sanitized(name),
        chat_label(None) == "selected chat"@,
{
}

/// A watch ends after the last poll that was asked for, and with a failed poll; otherwise it goes
/// on, for ever where no number was given.
pub proof fn lemma_when_a_watch_ends(
    outcome: ReplyPollOutcome,
    max_polls: Option<u64>,
    r: PumpStep,
)
    requires
        call_ensures(after_outcome, (outcome, max_polls), r),
    ensures
        r is Failed <==> outcome is Error,
        r is Failed ==> r->Failed_0 == outcome->error,
        outcome is Completed ==> (r is Finished <==> max_polls is Some && outcome->Completed_poll
            >= max_polls->0),
        max_polls is None ==> !(r is Finished),
{
}

} // verus!
