//! Terminal-independent state of the interactive reply surface: the conversation above, the line
//! being typed below.
use crate::digits::{decimal, size_text};
use crate::draft::{
    input_column, input_row, usable_columns, usable_width, Draft, DraftView, ReplyInputFrame,
};
use crate::layout::{
    entry_rows, lemma_rows_control_free, row_views, separator_row, separator_rows, system_rows,
    wrap_chat, ChatEntry, EntryView, ReplyRow, RowStyle, RowView, StoredView,
};
use crate::text::{control_free, sanitize_terminal_text, sanitized};
use crate::time::{date_at_offset, day_at_offset, is_offset, Timestamp};
use crate::types::optional_text;
use crate::width::{
    centered_rule, display_front, display_prefix, repeat_char, repeated, ruled_label,
};
use std::collections::VecDeque;
use vstd::prelude::*;

verus! {

/// The most entries that the history keeps.
pub const REPLY_HISTORY_LIMIT: usize = 2_000;

/// The keys that the surface understands, shown in its last row.
pub const REPLY_FOOTER: &'static str =
    "↑↓ scroll  PgUp/PgDn page  Enter send  Ctrl-C quit  /help";

/// The rows of a terminal that are not conversation: separator, input and footer.
pub const FIXED_ROWS: u16 = 3;

/// What an entry of the history says.
#[derive(Debug, PartialEq, Eq)]
pub enum HistoryEntry {
    Chat(ChatEntry),
    System(String),
}

impl Clone for HistoryEntry {
    fn clone(&self) -> (r: Self)
        ensures
            r == *self,
    {
        match self {
            HistoryEntry::Chat(chat) => HistoryEntry::Chat(chat.clone()),
            HistoryEntry::System(text) => HistoryEntry::System(text.clone()),
        }
    }
}

/// How far to scroll; negative is up, towards older rows.
#[derive(Debug, Clone, Copy, PartialEq, Eq, Structural)]
pub enum ScrollDelta {
    Rows(isize),
    Pages(isize),
}

/// Everything that a terminal of some size shows.
#[derive(Debug, PartialEq, Eq)]
pub struct ReplyFrame {
    pub conversation: Vec<ReplyRow>,
    pub separator: String,
    pub input: String,
    pub cursor_column: u16,
    pub footer: String,
}

impl Clone for ReplyFrame {
    fn clone(&self) -> (r: Self)
        ensures
            r.conversation@ == self.conversation@,
            r.separator == self.separator,
            r.input == self.input,
            r.cursor_column == self.cursor_column,
            r.footer == self.footer,
    {
        ReplyFrame {
            conversation: copied_rows(&self.conversation),
            separator: self.separator.clone(),
            input: self.input.clone(),
            cursor_column: self.cursor_column,
            footer: self.footer.clone(),
        }
    }
}

fn copied_rows(rows: &Vec<ReplyRow>) -> (r: Vec<ReplyRow>)
    ensures
        r@ == rows@,
{
    let mut r: Vec<ReplyRow> = Vec::new();
    for i in 0..rows.len()
        invariant
            r@ =~= rows@.take(i as int),
    {
        r.push(rows[i].clone());
    }
    assert(r@ =~= rows@);
    r
}

/// The rows of a whole history, oldest first.
pub open spec fn all_rows(history: Seq<StoredView>, width: nat) -> Seq<RowView>
    decreases history.len(),
{
    if history.len() == 0 {
        Seq::empty()
    } else {
        all_rows(history.drop_last(), width) + entry_rows(history.last(), width)
    }
}

/// An entry at the start of the history: nothing before it that it could continue.
pub open spec fn detached(stored: StoredView) -> StoredView {
    StoredView { entry: stored.entry, grouped: false, day_separator: None }
}

/// The history with one more entry. A full history loses its oldest entry for it.
pub open spec fn extended(history: Seq<StoredView>, new: StoredView) -> Seq<StoredView> {
    if history.len() < REPLY_HISTORY_LIMIT {
        history.push(new)
    } else {
        history.drop_first().update(0, detached(history[1])).push(new)
    }
}

/// The last chat message of the history.
pub open spec fn last_chat(history: Seq<StoredView>) -> Option<EntryView>
    decreases history.len(),
{
    if history.len() == 0 {
        None
    } else if history.last().entry is Chat {
        Some(history.last().entry)
    } else {
        last_chat(history.drop_last())
    }
}

/// The day that the wall clock showed at a chat message.
pub open spec fn chat_day(chat: EntryView) -> int {
    day_at_offset(chat->timestamp.unix_seconds(), chat->offset)
}

/// A chat message continues the entry before it if that is a message of the same sender on the
/// same local day and at most five minutes old.
pub open spec fn continues(before: EntryView, new: EntryView) -> bool {
    &&& before is Chat
    &&& chat_day(before) == chat_day(new)
    &&& before->sender == new->sender
    &&& 0 <= new->timestamp.seconds_after(before->timestamp) <= 300
}

/// A chat message as it joins the history. It may continue the last entry; where the last chat
/// message was of another local day, the date is put above it, whatever stands between the two.
pub open spec fn chat_after(
    history: Seq<StoredView>,
    timestamp: Timestamp,
    offset: i32,
    sender: Seq<char>,
    text: Seq<char>,
) -> StoredView {
    let entry = EntryView::Chat { timestamp, offset, sender, text };
    StoredView {
        entry,
        grouped: history.len() > 0 && continues(history.last().entry, entry),
        day_separator: if last_chat(history) is Some && chat_day(last_chat(history)->0)
            != chat_day(entry) {
            Some(date_at_offset(timestamp.unix_seconds(), offset))
        } else {
            None
        },
    }
}

/// A chat message as it joins the history, its texts made inert.
pub open spec fn arrival(history: Seq<StoredView>, chat: ChatEntry, offset: i32) -> StoredView {
    chat_after(
        history,
        chat.timestamp,
        offset,
        sanitized(chat.sender@),
        sanitized(chat.text@),
    )
}

/// What is put into the conversation, before it is made inert.
pub enum NoteView {
    Chat { timestamp: Timestamp, sender: Seq<char>, text: Seq<char> },
    System { text: Seq<char> },
}

impl View for HistoryEntry {
    type V = NoteView;

    open spec fn view(&self) -> NoteView {
        match self {
            HistoryEntry::Chat(chat) => NoteView::Chat {
                timestamp: chat.timestamp,
                sender: chat.sender@,
                text: chat.text@,
            },
            HistoryEntry::System(text) => NoteView::System { text: text@ },
        }
    }
}

/// A note as it joins the history; `offset` is that of the wall clock at the time of a chat.
pub open spec fn noted(history: Seq<StoredView>, note: NoteView, offset: i32) -> StoredView {
    match note {
        NoteView::Chat { timestamp, sender, text } => chat_after(
            history,
            timestamp,
            offset,
            sanitized(sender),
            sanitized(text),
        ),
        NoteView::System { text } => status_entry(text),
    }
}

/// The history after notes have joined it, one after the other.
pub open spec fn told(
    history: Seq<StoredView>,
    notes: Seq<NoteView>,
    offsets: Seq<i32>,
) -> Seq<StoredView>
    decreases notes.len(),
{
    if notes.len() == 0 {
        history
    } else {
        let before = told(history, notes.drop_last(), offsets);
        extended(before, noted(before, notes.last(), offsets[notes.len() - 1]))
    }
}

/// How many of the notes are chat messages.
pub open spec fn chat_notes(notes: Seq<NoteView>) -> nat
    decreases notes.len(),
{
    if notes.len() == 0 {
        0
    } else {
        chat_notes(notes.drop_last()) + if notes.last() is Chat {
            1nat
        } else {
            0nat
        }
    }
}

/// Each offset is one that a wall clock can have.
pub open spec fn are_offsets(offsets: Seq<i32>) -> bool {
    forall|i: int| 0 <= i < offsets.len() ==> is_offset(#[trigger] offsets[i])
}

/// Each state is the one before it with one more of the notes.
pub open spec fn tells(
    states: Seq<ReplyUiState>,
    notes: Seq<NoteView>,
    offsets: Seq<i32>,
) -> bool {
    &&& states.len() == notes.len() + 1
    &&& offsets.len() == notes.len()
    &&& forall|i: int|
        0 <= i < notes.len() ==> is_told(states[i], states[i + 1], #[trigger] notes[i], offsets[i])
}

/// One state is the other with one more note.
pub open spec fn is_told(
    before: ReplyUiState,
    after: ReplyUiState,
    note: NoteView,
    offset: i32,
) -> bool {
    after.received(&before, noted(before.history(), note, offset))
}

/// A status line as it joins the history.
pub open spec fn status_entry(line: Seq<char>) -> StoredView {
    StoredView {
        entry: EntryView::System { text: sanitized(line) },
        grouped: false,
        day_separator: None,
    }
}

/// `a - b`, but not below zero.
pub open spec fn minus(a: nat, b: nat) -> nat {
    if a >= b {
        (a - b) as nat
    } else {
        0
    }
}

/// `a`, but not above what a `usize` holds.
pub open spec fn bounded(a: nat) -> nat {
    if a <= usize::MAX {
        a
    } else {
        usize::MAX as nat
    }
}

/// `a`, but not above what a `u128` holds.
pub open spec fn countable(a: nat) -> nat {
    if a <= u128::MAX {
        a
    } else {
        u128::MAX as nat
    }
}

/// The rows that an entry was wrapped to, as far as it was.
pub open spec fn wrapped_rows(stored: StoredView, cached: Option<nat>) -> nat {
    match cached {
        Some(width) => entry_rows(stored, width).len(),
        None => 0,
    }
}

/// The top row of a view when a full history loses its oldest entry: it counts without the rows
/// of that entry, and with the rows that the entry behind it has once it is the first.
pub open spec fn lowered(row: nat, history: Seq<StoredView>, cached: Seq<Option<nat>>) -> nat {
    minus(
        countable(row + wrapped_rows(detached(history[1]), cached[1])),
        wrapped_rows(history[0], cached[0]) + wrapped_rows(history[1], cached[1]),
    )
}

/// The rows of a terminal that the conversation may fill.
pub open spec fn conversation_height(terminal_height: u16) -> nat {
    minus(terminal_height as nat, FIXED_ROWS as nat)
}

/// How many rows a scroll moves: pages leave one row in common.
pub open spec fn scroll_amount(delta: ScrollDelta, terminal_height: u16) -> int {
    match delta {
        ScrollDelta::Rows(rows) => rows as int,
        ScrollDelta::Pages(pages) => {
            let page = if terminal_height >= 5 {
                terminal_height - 4
            } else {
                1
            };
            let amount = pages * page;
            if amount > isize::MAX {
                isize::MAX as int
            } else if amount < isize::MIN {
                isize::MIN as int
            } else {
                amount
            }
        },
    }
}

/// The top row after a scroll from `current`, where `bottom` is the lowest top row.
pub open spec fn scrolled(current: nat, amount: int, bottom: nat) -> nat {
    if amount < 0 {
        minus(current, (-amount) as nat)
    } else if current + amount <= bottom {
        (current + amount) as nat
    } else {
        bottom
    }
}

/// The messages that arrived while the view was scrolled up are pointed at in the last row.
pub open spec fn shows_marker(top: Option<nat>, unread: nat, terminal_height: u16) -> bool {
    top is Some && unread > 0 && conversation_height(terminal_height) > 0
}

/// How many rows of the history there is room for.
pub open spec fn row_capacity(top: Option<nat>, unread: nat, terminal_height: u16) -> nat {
    minus(
        conversation_height(terminal_height),
        if shows_marker(top, unread, terminal_height) {
            1
        } else {
            0
        },
    )
}

/// The first row in view: where the view was scrolled to, or as low as it gets.
pub open spec fn first_row(top: Option<nat>, total: nat, capacity: nat) -> nat {
    let bottom = minus(total, capacity);
    match top {
        Some(row) => if row <= bottom {
            row
        } else {
            bottom
        },
        None => bottom,
    }
}

/// The row that points at unread messages.
pub open spec fn marker_row(unread: nat, width: nat) -> RowView {
    RowView {
        text: ruled_label(decimal(unread) + " new messages"@, width),
        style: RowStyle::Dim,
    }
}

/// The conversation in view: the rows from the first that fit, then the marker if it is shown.
pub open spec fn conversation_rows(
    history: Seq<StoredView>,
    top: Option<nat>,
    unread: nat,
    width: nat,
    terminal_height: u16,
) -> Seq<RowView> {
    let rows = all_rows(history, width);
    let capacity = row_capacity(top, unread, terminal_height);
    let start = first_row(top, rows.len(), capacity);
    let end = if start + capacity <= rows.len() {
        start + capacity
    } else {
        rows.len()
    };
    let shown = rows.subrange(start as int, end as int);
    if shows_marker(top, unread, terminal_height) {
        shown.push(marker_row(unread, width))
    } else {
        shown
    }
}

/// The row at the top once the conversation is shown: a view below the last rows comes up to
/// them, and one at the bottom stays there.
pub open spec fn settled_top(
    history: Seq<StoredView>,
    top: Option<nat>,
    unread: nat,
    width: nat,
    terminal_height: u16,
) -> Option<nat> {
    match top {
        Some(row) => Some(
            first_row(
                Some(row),
                all_rows(history, width).len(),
                row_capacity(top, unread, terminal_height),
            ),
        ),
        None => None,
    }
}

/// How many entries are not wrapped for the width.
pub open spec fn stale_count(cached: Seq<Option<nat>>, width: nat) -> nat
    decreases cached.len(),
{
    if cached.len() == 0 {
        0
    } else {
        stale_count(cached.drop_last(), width) + if cached.last() == Some(width) {
            0nat
        } else {
            1nat
        }
    }
}

#[derive(Debug)]
struct WrappedEntry {
    width: usize,
    rows: Vec<ReplyRow>,
}

#[derive(Debug)]
struct StoredEntry {
    entry: HistoryEntry,
    offset: i32,
    grouped: bool,
    day_separator: Option<String>,
    wrapped: Option<WrappedEntry>,
}

fn copied_entry(stored: &StoredEntry) -> (r: StoredEntry)
    ensures
        stored_view(r) == stored_view(*stored),
        cached_width(r) == cached_width(*stored),
        stored_wf(r) == stored_wf(*stored),
{
    StoredEntry {
        entry: stored.entry.clone(),
        offset: stored.offset,
        grouped: stored.grouped,
        day_separator: stored.day_separator.clone(),
        wrapped: match &stored.wrapped {
            Some(wrapped) => Some(
                WrappedEntry { width: wrapped.width, rows: copied_rows(&wrapped.rows) },
            ),
            None => None,
        },
    }
}

spec fn stored_view(stored: StoredEntry) -> StoredView {
    StoredView {
        entry: match stored.entry {
            HistoryEntry::Chat(chat) => EntryView::Chat {
                timestamp: chat.timestamp,
                offset: stored.offset,
                sender: chat.sender@,
                text: chat.text@,
            },
            HistoryEntry::System(text) => EntryView::System { text: text@ },
        },
        grouped: stored.grouped,
        day_separator: optional_text(stored.day_separator),
    }
}

spec fn stored_views(list: Seq<StoredEntry>) -> Seq<StoredView> {
    list.map_values(|stored: StoredEntry| stored_view(stored))
}

spec fn cached_width(stored: StoredEntry) -> Option<nat> {
    match stored.wrapped {
        Some(wrapped) => Some(wrapped.width as nat),
        None => None,
    }
}

spec fn cached_widths(list: Seq<StoredEntry>) -> Seq<Option<nat>> {
    list.map_values(|stored: StoredEntry| cached_width(stored))
}

spec fn stored_wf(stored: StoredEntry) -> bool {
    &&& stored_view(stored).is_clean()
    &&& is_offset(stored.offset)
    &&& stored.wrapped is Some ==> row_views(stored.wrapped->0.rows@) == entry_rows(
        stored_view(stored),
        stored.wrapped->0.width as nat,
    )
}

fn wrap_history_entry(stored: &StoredEntry, width: usize) -> (r: WrappedEntry)
    requires
        is_offset(stored.offset),
    ensures
        r.width == width,
        row_views(r.rows@) == entry_rows(stored_view(*stored), width as nat),
{
    let mut rows: Vec<ReplyRow> = separator_row(&stored.day_separator, width);
    let ghost above = rows@;
    let mut content: Vec<ReplyRow> = match &stored.entry {
        HistoryEntry::System(text) => system_rows(text.as_str(), width),
        HistoryEntry::Chat(chat) => wrap_chat(chat, stored.offset, stored.grouped, width),
    };
    let ghost below = content@;
    rows.append(&mut content);
    assert(row_views(rows@) =~= row_views(above) + row_views(below));
    WrappedEntry { width, rows }
}

fn row_count(stored: &StoredEntry) -> (n: usize)
    requires
        stored_wf(*stored),
    ensures
        n == wrapped_rows(stored_view(*stored), cached_width(*stored)),
{
    match &stored.wrapped {
        Some(wrapped) => {
            assert(row_views(wrapped.rows@).len() == wrapped.rows@.len());
            wrapped.rows.len()
        },
        None => 0,
    }
}

/// An entry that has become the first, and how many rows it was and is wrapped to.
struct Detached {
    stored: StoredEntry,
    rows_before: usize,
    rows_after: usize,
    rewrapped: bool,
}

/// Takes from an entry what it had from the one before it. What it is wrapped to is brought up to
/// date where rows are counted on, else it is wrapped when it is next shown.
fn detach(stored: StoredEntry, counted: bool) -> (r: Detached)
    requires
        stored_wf(stored),
    ensures
        ({
            let before = stored_view(stored);
            let redrawn = before.grouped || before.day_separator is Some;
            let width = cached_width(stored);
            &&& stored_wf(r.stored)
            &&& stored_view(r.stored) == detached(before)
            &&& r.rows_before == wrapped_rows(before, width)
            &&& counted ==> r.rows_after == wrapped_rows(detached(before), width)
            &&& r.rewrapped == (redrawn && counted && width is Some)
            &&& cached_width(r.stored) == if redrawn && !counted {
                None
            } else {
                width
            }
        }),
{
    let rows_before: usize = row_count(&stored);
    let mut first: StoredEntry = stored;
    if !first.grouped && first.day_separator.is_none() {
        return Detached { stored: first, rows_before, rows_after: rows_before, rewrapped: false };
    }
    let shown: Option<usize> = match &first.wrapped {
        Some(wrapped) => Some(wrapped.width),
        None => None,
    };
    first.grouped = false;
    first.day_separator = None;
    first.wrapped = None;
    let mut rewrapped: bool = false;
    if counted {
        match shown {
            Some(width) => {
                first.wrapped = Some(wrap_history_entry(&first, width));
                rewrapped = true;
            },
            None => {},
        }
    }
    let rows_after: usize = row_count(&first);
    Detached { stored: first, rows_before, rows_after, rewrapped }
}

spec fn counts_rows(cumulative: Seq<u128>, history: Seq<StoredView>, width: nat) -> bool {
    &&& cumulative.len() == history.len()
    &&& forall|i: int|
        0 <= i < cumulative.len() ==> (#[trigger] cumulative[i]) as nat == all_rows(
            history.take(i + 1),
            width,
        ).len()
}

spec fn all_wf(list: Seq<StoredEntry>) -> bool {
    forall|i: int| 0 <= i < list.len() ==> stored_wf(#[trigger] list[i])
}

spec fn all_wrapped(list: Seq<StoredEntry>, width: nat) -> bool {
    forall|i: int| 0 <= i < list.len() ==> cached_width(#[trigger] list[i]) == Some(width)
}

/// The state of the interactive reply surface.
#[derive(Debug)]
pub struct ReplyUiState {
    entries: VecDeque<StoredEntry>,
    line: Draft,
    layout_width: Option<usize>,
    cumulative_rows: Vec<u128>,
    total_rows: u128,
    scroll_top: Option<u128>,
    unread_chats: usize,
    wrap_count: usize,
}

impl Clone for ReplyUiState {
    fn clone(&self) -> (r: Self)
        ensures
            r.wf() == self.wf(),
            r.unchanged(self),
    {
        let mut entries: VecDeque<StoredEntry> = VecDeque::new();
        for i in 0..self.entries.len()
            invariant
                entries@.len() == i,
                forall|k: int|
                    0 <= k < i ==> {
                        &&& stored_view(#[trigger] entries@[k]) == stored_view(self.entries@[k])
                        &&& cached_width(entries@[k]) == cached_width(self.entries@[k])
                        &&& stored_wf(entries@[k]) == stored_wf(self.entries@[k])
                    },
        {
            entries.push_back(copied_entry(&self.entries[i]));
        }
        let mut cumulative_rows: Vec<u128> = Vec::new();
        for i in 0..self.cumulative_rows.len()
            invariant
                cumulative_rows@ =~= self.cumulative_rows@.take(i as int),
        {
            cumulative_rows.push(self.cumulative_rows[i]);
        }
        let r: ReplyUiState = ReplyUiState {
            entries,
            line: self.line.clone(),
            layout_width: self.layout_width,
            cumulative_rows,
            total_rows: self.total_rows,
            scroll_top: self.scroll_top,
            unread_chats: self.unread_chats,
            wrap_count: self.wrap_count,
        };
        proof {
            assert(r.cumulative_rows@ =~= self.cumulative_rows@);
            assert(r.history() =~= self.history());
            assert(r.cached() =~= self.cached());
            assert(all_wf(r.entries@) == all_wf(self.entries@)) by {
                if all_wf(r.entries@) {
                    assert forall|k: int| 0 <= k < self.entries@.len() implies stored_wf(
                        #[trigger] self.entries@[k],
                    ) by {
                        assert(stored_wf(r.entries@[k]));
                    }
                }
            }
            if self.layout_width is Some {
                let width = self.layout_width->0 as nat;
                assert(all_wrapped(r.entries@, width) == all_wrapped(self.entries@, width)) by {
                    if all_wrapped(r.entries@, width) {
                        assert forall|k: int| 0 <= k < self.entries@.len() implies cached_width(
                            #[trigger] self.entries@[k],
                        ) == Some(width) by {
                            assert(cached_width(r.entries@[k]) == Some(width));
                        }
                    }
                }
            }
        }
        r
    }
}

impl Default for ReplyUiState {
    fn default() -> (r: Self)
        ensures
            r.wf(),
            r.history().len() == 0,
            r.draft_view().text.len() == 0,
            r.draft_view().cursor == 0,
            r.layout() is None,
            r.cached().len() == 0,
            r.rows_known() == 0,
            r.top() is None,
            r.unread() == 0,
            r.wraps() == 0,
    {
        ReplyUiState {
            entries: VecDeque::new(),
            line: Draft::default(),
            layout_width: None,
            cumulative_rows: Vec::new(),
            total_rows: 0,
            scroll_top: None,
            unread_chats: 0,
            wrap_count: 0,
        }
    }
}

impl ReplyUiState {
    /// The entries of the conversation, oldest first.
    pub closed spec fn history(&self) -> Seq<StoredView> {
        stored_views(self.entries@)
    }

    /// The line being typed.
    pub closed spec fn draft_view(&self) -> DraftView {
        self.line@
    }

    /// The width that the whole history is wrapped for, if it is.
    pub closed spec fn layout(&self) -> Option<nat> {
        match self.layout_width {
            Some(width) => Some(width as nat),
            None => None,
        }
    }

    /// For each entry the width that it is wrapped for, if it is.
    pub closed spec fn cached(&self) -> Seq<Option<nat>> {
        cached_widths(self.entries@)
    }

    /// The number of rows of the history when it was last wrapped as a whole.
    pub closed spec fn rows_known(&self) -> nat {
        self.total_rows as nat
    }

    /// The top row in view if the view is scrolled up; else it stays at the bottom.
    pub closed spec fn top(&self) -> Option<nat> {
        match self.scroll_top {
            Some(row) => Some(row as nat),
            None => None,
        }
    }

    /// The chat messages that arrived since the view was scrolled up.
    pub closed spec fn unread(&self) -> nat {
        self.unread_chats as nat
    }

    /// How often an entry was wrapped.
    pub closed spec fn wraps(&self) -> nat {
        self.wrap_count as nat
    }

    /// What holds of every state.
    pub closed spec fn wf(&self) -> bool {
        &&& self.line@.is_valid()
        &&& self.entries@.len() <= REPLY_HISTORY_LIMIT
        &&& all_wf(self.entries@)
        &&& self.scroll_top is None ==> self.unread_chats == 0
        &&& self.layout_width is Some ==> {
            &&& all_wrapped(self.entries@, self.layout_width->0 as nat)
            &&& counts_rows(
                self.cumulative_rows@,
                self.history(),
                self.layout_width->0 as nat,
            )
            &&& self.total_rows as nat == all_rows(
                self.history(),
                self.layout_width->0 as nat,
            ).len()
        }
    }

    /// Everything but the line being typed is the same.
    pub open spec fn same_conversation(&self, other: &ReplyUiState) -> bool {
        &&& self.history() == other.history()
        &&& self.layout() == other.layout()
        &&& self.cached() == other.cached()
        &&& self.rows_known() == other.rows_known()
        &&& self.top() == other.top()
        &&& self.unread() == other.unread()
        &&& self.wraps() == other.wraps()
    }

    /// Nothing is different.
    pub open spec fn unchanged(&self, before: &ReplyUiState) -> bool {
        self.same_conversation(before) && self.draft_view() == before.draft_view()
    }

    /// `self` is `before` after a scroll: where the scroll reaches the bottom, the view follows
    /// the newest row again and nothing is unread.
    pub open spec fn moved(
        &self,
        before: &ReplyUiState,
        delta: ScrollDelta,
        terminal_height: u16,
    ) -> bool {
        let bottom = minus(before.rows_known(), conversation_height(terminal_height));
        let current = match before.top() {
            Some(row) => row,
            None => bottom,
        };
        let next = scrolled(current, scroll_amount(delta, terminal_height), bottom);
        &&& if next >= bottom {
            self.top() is None && self.unread() == 0
        } else {
            self.top() == Some(next) && self.unread() == before.unread()
        }
        &&& self.draft_view() == before.draft_view()
        &&& self.history() == before.history()
        &&& self.layout() == before.layout()
        &&& self.cached() == before.cached()
        &&& self.rows_known() == before.rows_known()
        &&& self.wraps() == before.wraps()
    }

    /// `self` is `before` with one more entry.
    pub open spec fn received(&self, before: &ReplyUiState, new: StoredView) -> bool {
        let full = before.history().len() >= REPLY_HISTORY_LIMIT;
        &&& self.history() == extended(before.history(), new)
        &&& self.draft_view() == before.draft_view()
        &&& self.unread() == if before.top() is Some && new.entry is Chat {
            bounded(before.unread() + 1)
        } else {
            before.unread()
        }
        &&& if full {
            let second = before.history()[1];
            let redrawn = second.grouped || second.day_separator is Some;
            let kept = before.cached().drop_first();
            &&& self.layout() is None
            &&& self.rows_known() == before.rows_known()
            &&& self.wraps() == if redrawn && before.top() is Some && before.cached()[1] is Some {
                bounded(before.wraps() + 1)
            } else {
                before.wraps()
            }
            &&& self.top() == match before.top() {
                Some(row) => Some(lowered(row, before.history(), before.cached())),
                None => None,
            }
            &&& self.cached() == if redrawn && before.top() is None {
                kept.update(0, None).push(None)
            } else {
                kept.push(None)
            }
        } else {
            &&& self.layout() == before.layout()
            &&& self.top() == before.top()
            &&& self.cached() == before.cached().push(before.layout())
            &&& self.rows_known() == before.rows_known() + match before.layout() {
                Some(width) => entry_rows(new, width).len(),
                None => 0nat,
            }
            &&& self.wraps() == if before.layout() is Some {
                bounded(before.wraps() + 1)
            } else {
                before.wraps()
            }
        }
    }

    /// What every state keeps: a bounded history whose entries are inert, a valid line, nothing
    /// unread at the bottom, and a row count that is right whenever there is a layout.
    pub proof fn lemma_state(&self)
        requires
            self.wf(),
        ensures
            self.history().len() <= REPLY_HISTORY_LIMIT,
            self.cached().len() == self.history().len(),
            forall|i: int| 0 <= i < self.history().len() ==> (#[trigger] self.history()[i]).is_clean(),
            self.draft_view().is_valid(),
            self.top() is None ==> self.unread() == 0,
            self.layout() is Some ==> self.rows_known() == all_rows(
                self.history(),
                self.layout()->0,
            ).len(),
            self.layout() is Some ==> forall|i: int|
                0 <= i < self.cached().len() ==> (#[trigger] self.cached()[i]) == self.layout(),
    {
        assert forall|i: int| 0 <= i < self.history().len() implies (
        #[trigger] self.history()[i]).is_clean() by {
            assert(stored_wf(self.entries@[i]));
        }
        if self.layout() is Some {
            assert forall|i: int| 0 <= i < self.cached().len() implies (#[trigger] self.cached()[i])
                == self.layout() by {
                assert(cached_width(self.entries@[i]) == self.layout());
            }
        }
    }

    /// Puts a chat message at the end of the conversation, as seen in the machine's time zone.
    pub fn push_chat(&mut self, chat: ChatEntry)
        requires
            old(self).wf(),
        ensures
            final(self).wf(),
            exists|offset: i32|
                is_offset(offset) && #[trigger] final(self).received(
                    old(self),
                    arrival(old(self).history(), chat, offset),
                ),
    {
        let offset: i32 = chat.timestamp.local_offset();
        self.push_chat_at(chat, offset);
    }

    /// Puts a chat message at the end of the conversation, as seen on a wall clock that is
    /// `offset` seconds ahead of UTC.
    pub fn push_chat_at(&mut self, chat: ChatEntry, offset: i32)
        requires
            old(self).wf(),
            is_offset(offset),
        ensures
            final(self).wf(),
            final(self).received(old(self), arrival(old(self).history(), chat, offset)),
    {
        let clean: ChatEntry = ChatEntry {
            timestamp: chat.timestamp,
            sender: sanitize_terminal_text(chat.sender.as_str()),
            text: sanitize_terminal_text(chat.text.as_str()),
        };
        let (grouped, day_separator) = self.chat_context(&clean, offset);
        let stored: StoredEntry = StoredEntry {
            entry: HistoryEntry::Chat(clean),
            offset,
            grouped,
            day_separator,
            wrapped: None,
        };
        self.push_entry(stored, true);
    }

    /// Puts a status line at the end of the conversation.
    pub fn push_system(&mut self, line: &str)
        requires
            old(self).wf(),
        ensures
            final(self).wf(),
            final(self).received(old(self), status_entry(line@)),
    {
        let stored: StoredEntry = StoredEntry {
            entry: HistoryEntry::System(sanitize_terminal_text(line)),
            offset: 0,
            grouped: false,
            day_separator: None,
            wrapped: None,
        };
        self.push_entry(stored, false);
    }

    /// Puts a status line at the end of the conversation.
    pub fn push_line(&mut self, line: &str)
        requires
            old(self).wf(),
        ensures
            final(self).wf(),
            final(self).received(old(self), status_entry(line@)),
    {
        self.push_system(line);
    }

    /// Puts a note at the end of the conversation.
    pub fn push_note(&mut self, note: HistoryEntry)
        requires
            old(self).wf(),
        ensures
            final(self).wf(),
            exists|offset: i32|
                is_offset(offset) && #[trigger] final(self).received(
                    old(self),
                    noted(old(self).history(), note@, offset),
                ),
    {
        match note {
            HistoryEntry::Chat(chat) => {
                let ghost entry = chat;
                self.push_chat(chat);
                proof {
                    let offset = choose|offset: i32|
                        is_offset(offset) && #[trigger] self.received(
                            old(self),
                            arrival(old(self).history(), entry, offset),
                        );
                    assert(self.received(
                        old(self),
                        noted(old(self).history(), note@, offset),
                    ));
                }
            },
            HistoryEntry::System(line) => {
                self.push_system(line.as_str());
                assert(is_offset(0i32) && self.received(
                    old(self),
                    noted(old(self).history(), note@, 0i32),
                ));
            },
        }
    }

    /// Puts notes at the end of the conversation, one after the other.
    pub fn push_notes(&mut self, notes: &Vec<HistoryEntry>)
        requires
            old(self).wf(),
        ensures
            final(self).wf(),
            final(self).draft_view() == old(self).draft_view(),
            final(self).top() is Some == old(self).top() is Some,
            final(self).unread() == if old(self).top() is Some {
                bounded(old(self).unread() + chat_notes(note_views(notes@)))
            } else {
                old(self).unread()
            },
            exists|offsets: Seq<i32>, states: Seq<ReplyUiState>|
                {
                    &&& are_offsets(offsets)
                    &&& #[trigger] tells(states, note_views(notes@), offsets)
                    &&& states.first() == *old(self)
                    &&& states.last() == *final(self)
                    &&& final(self).history() == told(
                        old(self).history(),
                        note_views(notes@),
                        offsets,
                    )
                },
    {
        let ghost views = note_views(notes@);
        let ghost mut offsets: Seq<i32> = Seq::empty();
        let ghost mut states: Seq<ReplyUiState> = seq![*self];
        let n: usize = notes.len();
        assert(views.take(0) =~= Seq::<NoteView>::empty());
        for i in 0..n
            invariant
                n == notes.len(),
                views == note_views(notes@),
                self.wf(),
                self.draft_view() == old(self).draft_view(),
                self.top() is Some == old(self).top() is Some,
                self.unread() == if old(self).top() is Some {
                    bounded(old(self).unread() + chat_notes(views.take(i as int)))
                } else {
                    old(self).unread()
                },
                are_offsets(offsets),
                tells(states, views.take(i as int), offsets),
                states.first() == *old(self),
                states.last() == *self,
                self.history() == told(old(self).history(), views.take(i as int), offsets),
        {
            let ghost before = *self;
            let ghost used = offsets;
            let ghost view = views[i as int];
            self.push_note(notes[i].clone());
            proof {
                let offset = choose|offset: i32|
                    is_offset(offset) && #[trigger] self.received(
                        &before,
                        noted(before.history(), view, offset),
                    );
                offsets = used.push(offset);
                let front = states;
                states = front.push(*self);
                assert(views.take(i + 1).drop_last() =~= views.take(i as int));
                assert(views.take(i + 1).last() == view);
                assert forall|k: int| 0 <= k < i + 1 implies is_told(
                    states[k],
                    states[k + 1],
                    #[trigger] views.take(i + 1)[k],
                    offsets[k],
                ) by {
                    if k < i {
                        assert(views.take(i as int)[k] == views.take(i + 1)[k]);
                        assert(states[k] == front[k]);
                        assert(states[k + 1] == front[k + 1]);
                    } else {
                        assert(states[k] == front.last());
                    }
                }
                lemma_told_ignores_rest(
                    old(self).history(),
                    views.take(i as int),
                    used,
                    offset,
                );
            }
        }
        assert(views.take(n as int) =~= views);
    }

    fn chat_context(&self, next: &ChatEntry, offset: i32) -> (r: (bool, Option<String>))
        requires
            self.wf(),
            is_offset(offset),
        ensures
            ({
                let new = chat_after(
                    self.history(),
                    next.timestamp,
                    offset,
                    next.sender@,
                    next.text@,
                );
                &&& r.0 == new.grouped
                &&& optional_text(r.1) == new.day_separator
                &&& r.1 is Some ==> control_free(r.1->0@)
            }),
    {
        let n: usize = self.entries.len();
        let ghost history = self.history();
        let ghost entry = EntryView::Chat {
            timestamp: next.timestamp,
            offset,
            sender: next.sender@,
            text: next.text@,
        };
        let mut k: usize = n;
        assert(history.take(n as int) =~= history);
        while k > 0
            invariant
                self.wf(),
                is_offset(offset),
                history == self.history(),
                k <= n,
                n == self.entries@.len(),
                entry == (EntryView::Chat {
                    timestamp: next.timestamp,
                    offset,
                    sender: next.sender@,
                    text: next.text@,
                }),
                k < n ==> !(history.last().entry is Chat),
                last_chat(history) == last_chat(history.take(k as int)),
            decreases k,
        {
            let stored: &StoredEntry = &self.entries[k - 1];
            assert(stored_wf(self.entries@[k - 1]));
            assert(history.take(k as int).last() == stored_view(*stored));
            assert(history.take(k as int).drop_last() =~= history.take(k - 1));
            match &stored.entry {
                HistoryEntry::System(_) => {},
                HistoryEntry::Chat(previous) => {
                    if previous.timestamp.local_day(stored.offset) != next.timestamp.local_day(
                        offset,
                    ) {
                        return (false, Some(next.timestamp.local_date(offset)));
                    }
                    let gap: i64 = next.timestamp.seconds_since(&previous.timestamp);
                    let grouped: bool = k == n && previous.sender == next.sender && gap >= 0 && gap
                        <= 300;
                    return (grouped, None);
                },
            }
            k = k - 1;
        }
        (false, None)
    }

    fn push_entry(&mut self, stored: StoredEntry, is_chat: bool)
        requires
            old(self).wf(),
            stored_wf(stored),
            stored.wrapped is None,
            is_chat == (stored.entry is Chat),
        ensures
            final(self).wf(),
            final(self).received(old(self), stored_view(stored)),
    {
        let ghost new = stored_view(stored);
        let ghost before = self.entries@;
        let ghost was = *self;
        if self.entries.len() >= REPLY_HISTORY_LIMIT {
            assert(stored_wf(before[0]));
            assert(stored_wf(before[1]));
        }
        if is_chat && self.scroll_top.is_some() {
            self.unread_chats = self.unread_chats.saturating_add(1);
        }
        if self.entries.len() < REPLY_HISTORY_LIMIT {
            let mut item: StoredEntry = stored;
            match self.layout_width {
                Some(width) => {
                    let wrapped: WrappedEntry = wrap_history_entry(&item, width);
                    self.wrap_count = self.wrap_count.saturating_add(1);
                    proof {
                        lemma_row_total_bound(before, width as nat);
                    }
                    self.total_rows = self.total_rows + wrapped.rows.len() as u128;
                    self.cumulative_rows.push(self.total_rows);
                    item.wrapped = Some(wrapped);
                },
                None => {},
            }
            assert(stored_view(item) == new);
            self.entries.push_back(item);
            proof {
                assert(self.history() =~= was.history().push(new));
                assert(self.cached() =~= was.cached().push(was.layout()));
                if self.layout_width is Some {
                    let width = self.layout_width->0 as nat;
                    assert(self.history().drop_last() =~= was.history());
                    assert forall|i: int| 0 <= i < self.cumulative_rows@.len() implies (
                    #[trigger] self.cumulative_rows@[i]) as nat == all_rows(
                        self.history().take(i + 1),
                        width,
                    ).len() by {
                        if i < was.cumulative_rows@.len() {
                            assert(self.history().take(i + 1) =~= was.history().take(i + 1));
                            assert(self.cumulative_rows@[i] == was.cumulative_rows@[i]);
                        } else {
                            assert(self.history().take(i + 1) =~= self.history());
                        }
                    }
                }
            }
            return ;
        }
        let scrolled_up: bool = self.scroll_top.is_some();
        let mut lost: u128 = 0;
        let mut gained: u128 = 0;
        match self.entries.pop_front() {
            Some(oldest) => {
                assert(oldest == before[0]);
                lost = row_count(&oldest) as u128;
            },
            None => {},
        }
        match self.entries.pop_front() {
            Some(second) => {
                assert(second == before[1]);
                let anew: Detached = detach(second, scrolled_up);
                lost = lost + anew.rows_before as u128;
                gained = anew.rows_after as u128;
                if anew.rewrapped {
                    self.wrap_count = self.wrap_count.saturating_add(1);
                }
                self.entries.push_front(anew.stored);
            },
            None => {},
        }
        match self.scroll_top {
            Some(row) => {
                self.scroll_top = Some(row.saturating_add(gained).saturating_sub(lost));
            },
            None => {},
        }
        self.entries.push_back(stored);
        self.layout_width = None;
        proof {
            assert(stored_view(before[1]) == was.history()[1]);
            assert(stored_view(before[0]) == was.history()[0]);
            assert(stored_view(self.entries@[0]) == detached(was.history()[1]));
            assert forall|i: int| 0 <= i < self.entries@.len() implies stored_wf(
                #[trigger] self.entries@[i],
            ) by {
                if 0 < i < before.len() - 1 {
                    assert(self.entries@[i] == before[i + 1]);
                }
            }
            assert(self.history() =~= extended(was.history(), new)) by {
                assert forall|i: int| 0 <= i < self.history().len() implies self.history()[i]
                    == extended(was.history(), new)[i] by {
                    if 0 < i < before.len() - 1 {
                        assert(self.entries@[i] == before[i + 1]);
                    }
                }
            }
            let second = was.history()[1];
            let base = was.cached().drop_first();
            let expected = if (second.grouped || second.day_separator is Some) && was.top()
                is None {
                base.update(0, None).push(None)
            } else {
                base.push(None)
            };
            assert forall|i: int| 0 <= i < self.cached().len() implies self.cached()[i]
                == expected[i] by {
                if 0 < i < before.len() - 1 {
                    assert(self.entries@[i] == before[i + 1]);
                }
            }
            assert(self.cached() =~= expected);
        }
    }
}

impl ReplyUiState {
    /// Types a character; a control character does nothing.
    pub fn insert(&mut self, character: char)
        requires
            old(self).wf(),
        ensures
            final(self).wf(),
            final(self).draft_view() == old(self).draft_view().typed(character),
            final(self).same_conversation(old(self)),
    {
        self.line.insert(character);
    }

    /// Puts text in at the cursor. Line breaks become spaces and cannot submit the line.
    pub fn paste(&mut self, text: &str)
        requires
            old(self).wf(),
        ensures
            final(self).wf(),
            final(self).draft_view() == old(self).draft_view().pasted(text@),
            final(self).same_conversation(old(self)),
    {
        self.line.paste(text);
    }

    /// Removes the character before the cursor, if there is one.
    pub fn backspace(&mut self)
        requires
            old(self).wf(),
        ensures
            final(self).wf(),
            final(self).draft_view() == old(self).draft_view().backspaced(),
            final(self).same_conversation(old(self)),
    {
        self.line.backspace();
    }

    /// Removes the character behind the cursor, if there is one.
    pub fn delete(&mut self)
        requires
            old(self).wf(),
        ensures
            final(self).wf(),
            final(self).draft_view() == old(self).draft_view().deleted(),
            final(self).same_conversation(old(self)),
    {
        self.line.delete();
    }

    /// Moves the cursor one character back.
    pub fn left(&mut self)
        requires
            old(self).wf(),
        ensures
            final(self).wf(),
            final(self).draft_view() == old(self).draft_view().moved_to(old(self).draft_view().cursor - 1),
            final(self).same_conversation(old(self)),
    {
        self.line.left();
    }

    /// Moves the cursor one character on.
    pub fn right(&mut self)
        requires
            old(self).wf(),
        ensures
            final(self).wf(),
            final(self).draft_view() == old(self).draft_view().moved_to(old(self).draft_view().cursor + 1),
            final(self).same_conversation(old(self)),
    {
        self.line.right();
    }

    /// Moves the cursor to the start of the line.
    pub fn home(&mut self)
        requires
            old(self).wf(),
        ensures
            final(self).wf(),
            final(self).draft_view() == old(self).draft_view().moved_to(0),
            final(self).same_conversation(old(self)),
    {
        self.line.home();
    }

    /// Moves the cursor to the end of the line.
    pub fn end(&mut self)
        requires
            old(self).wf(),
        ensures
            final(self).wf(),
            final(self).draft_view() == old(self).draft_view().moved_to(old(self).draft_view().text.len() as int),
            final(self).same_conversation(old(self)),
    {
        self.line.end();
    }

    /// Removes the word before the cursor.
    pub fn ctrl_w(&mut self)
        requires
            old(self).wf(),
        ensures
            final(self).wf(),
            final(self).draft_view() == old(self).draft_view().without_word(),
            final(self).same_conversation(old(self)),
    {
        self.line.ctrl_w();
    }

    /// Removes everything before the cursor.
    pub fn ctrl_u(&mut self)
        requires
            old(self).wf(),
        ensures
            final(self).wf(),
            final(self).draft_view() == old(self).draft_view().without_head(),
            final(self).same_conversation(old(self)),
    {
        self.line.ctrl_u();
    }

    /// Removes everything behind the cursor.
    pub fn ctrl_k(&mut self)
        requires
            old(self).wf(),
        ensures
            final(self).wf(),
            final(self).draft_view() == old(self).draft_view().without_tail(),
            final(self).same_conversation(old(self)),
    {
        self.line.ctrl_k();
    }

    /// Hands the line out and starts an empty one.
    pub fn take_draft(&mut self) -> (r: String)
        requires
            old(self).wf(),
        ensures
            final(self).wf(),
            r@ == old(self).draft_view().text,
            final(self).draft_view().text.len() == 0,
            final(self).draft_view().cursor == 0,
            final(self).same_conversation(old(self)),
    {
        self.line.take()
    }

    /// The line being typed.
    pub fn draft(&self) -> (r: String)
        ensures
            r@ == self.draft_view().text,
    {
        self.line.text()
    }

    /// The number of characters before the cursor.
    pub fn cursor(&self) -> (r: usize)
        ensures
            r == self.draft_view().cursor,
    {
        self.line.cursor()
    }

    /// Whether the view follows the newest row.
    pub fn is_pinned_to_bottom(&self) -> (r: bool)
        ensures
            r == (self.top() is None),
    {
        self.scroll_top.is_none()
    }

    /// The chat messages that arrived since the view was scrolled up.
    pub fn new_since_scroll(&self) -> (r: usize)
        ensures
            r == self.unread(),
    {
        self.unread_chats
    }

    /// How often an entry was wrapped.
    pub fn wrap_computations(&self) -> (r: usize)
        ensures
            r == self.wraps(),
    {
        self.wrap_count
    }

    /// Moves the view. At the bottom it follows the newest row again and nothing is unread.
    pub fn scroll(&mut self, delta: ScrollDelta, terminal_height: u16)
        requires
            old(self).wf(),
        ensures
            final(self).wf(),
            final(self).moved(old(self), delta, terminal_height),
    {
        let viewport: u16 = terminal_height.saturating_sub(FIXED_ROWS);
        let page: u16 = if viewport >= 2 {
            viewport - 1
        } else {
            1
        };
        let amount: i128 = match delta {
            ScrollDelta::Rows(rows) => rows as i128,
            ScrollDelta::Pages(pages) => {
                assert(-0x1_0000_0000_0000_0000_0000 < pages * page < 0x1_0000_0000_0000_0000_0000)
                    by (nonlinear_arith)
                    requires
                        -0x8000_0000_0000_0000 <= pages < 0x8000_0000_0000_0000,
                        0 <= page < 0x1_0000,
                ;
                let product: i128 = pages as i128 * page as i128;
                if product > isize::MAX as i128 {
                    isize::MAX as i128
                } else if product < isize::MIN as i128 {
                    isize::MIN as i128
                } else {
                    product
                }
            },
        };
        let bottom: u128 = self.total_rows.saturating_sub(viewport as u128);
        let current: u128 = match self.scroll_top {
            Some(row) => row,
            None => bottom,
        };
        let next: u128 = if amount < 0 {
            current.saturating_sub((-amount) as u128)
        } else if current >= bottom || amount as u128 > bottom - current {
            bottom
        } else {
            current + amount as u128
        };
        if next >= bottom {
            self.scroll_top = None;
            self.unread_chats = 0;
        } else {
            self.scroll_top = Some(next);
        }
    }

    /// The input row for a terminal of the given width, and the column of the cursor in it.
    pub fn input_frame(&self, terminal_width: u16) -> (r: ReplyInputFrame)
        requires
            self.wf(),
        ensures
            r.input@ == input_row(self.draft_view(), usable_columns(terminal_width)),
            r.cursor_column == input_column(self.draft_view(), usable_columns(terminal_width)),
    {
        self.line.input_frame(terminal_width)
    }
}

impl ReplyUiState {
    /// Wraps what is not wrapped for the width and counts the rows.
    fn ensure_layout(&mut self, width: usize)
        requires
            old(self).wf(),
        ensures
            final(self).wf(),
            final(self).layout() == Some(width as nat),
            final(self).history() == old(self).history(),
            final(self).draft_view() == old(self).draft_view(),
            final(self).top() == old(self).top(),
            final(self).unread() == old(self).unread(),
            final(self).wraps() == bounded(
                old(self).wraps() + stale_count(old(self).cached(), width as nat),
            ),
    {
        let ghost was = *self;
        let ghost before = self.entries@;
        let ghost w = width as nat;
        match self.layout_width {
            Some(laid_out) => if laid_out == width {
                proof {
                    lemma_none_stale(before, w);
                }
                return ;
            },
            None => {},
        }
        let n: usize = self.entries.len();
        let mut cumulative: Vec<u128> = Vec::new();
        let mut total: u128 = 0;
        let mut wrap_count: usize = self.wrap_count;
        let mut pending: VecDeque<StoredEntry> = VecDeque::new();
        pending.append(&mut self.entries);
        let mut done: VecDeque<StoredEntry> = VecDeque::new();
        assert(before.skip(0) =~= before);
        assert(was.cached().take(0) =~= Seq::<Option<nat>>::empty());
        for i in 0..n
            invariant
                n == before.len(),
                n <= REPLY_HISTORY_LIMIT,
                w == width,
                all_wf(before),
                was.entries@ == before,
                pending@ =~= before.skip(i as int),
                done@.len() == i,
                all_wf(done@),
                all_wrapped(done@, w),
                stored_views(done@) =~= stored_views(before).take(i as int),
                counts_rows(cumulative@, stored_views(done@), w),
                total as nat == all_rows(stored_views(done@), w).len(),
                wrap_count as nat == bounded(
                    was.wraps() + stale_count(was.cached().take(i as int), w),
                ),
        {
            let ghost done_before = done@;
            let ghost counted = cumulative@;
            assert(pending@[0] == before[i as int]);
            assert(stored_wf(before[i as int]));
            assert(was.cached().take(i + 1).drop_last() =~= was.cached().take(i as int));
            match pending.pop_front() {
                Some(next) => {
                    let mut stored: StoredEntry = next;
                    let needs_wrap: bool = match &stored.wrapped {
                        Some(wrapped) => wrapped.width != width,
                        None => true,
                    };
                    if needs_wrap {
                        let wrapped: WrappedEntry = wrap_history_entry(&stored, width);
                        stored.wrapped = Some(wrapped);
                        wrap_count = wrap_count.saturating_add(1);
                    }
                    let rows: usize = match &stored.wrapped {
                        Some(wrapped) => wrapped.rows.len(),
                        None => 0,
                    };
                    proof {
                        lemma_row_total_bound(done_before, w);
                        assert(stored_wf(stored));
                        assert(row_views(stored.wrapped->0.rows@).len() == rows);
                    }
                    total = total + rows as u128;
                    cumulative.push(total);
                    done.push_back(stored);
                    proof {
                        let after = stored_views(done@);
                        assert(after =~= stored_views(done_before).push(stored_view(stored)));
                        assert(after.drop_last() =~= stored_views(done_before));
                        assert forall|k: int| 0 <= k < cumulative@.len() implies (
                        #[trigger] cumulative@[k]) as nat == all_rows(after.take(k + 1), w).len() by {
                            if k < counted.len() {
                                assert(cumulative@[k] == counted[k]);
                                assert(after.take(k + 1) =~= stored_views(done_before).take(k + 1));
                            } else {
                                assert(after.take(k + 1) =~= after);
                            }
                        }
                        assert(before.skip(i as int).subrange(1, before.len() - i)
                            =~= before.skip(i + 1));
                        assert(stored_views(before).take(i + 1) =~= stored_views(before).take(
                            i as int,
                        ).push(stored_view(before[i as int])));
                    }
                },
                None => {},
            }
        }
        proof {
            assert(stored_views(before).take(n as int) =~= stored_views(before));
            assert(was.cached().take(n as int) =~= was.cached());
        }
        self.entries = done;
        self.cumulative_rows = cumulative;
        self.total_rows = total;
        self.wrap_count = wrap_count;
        self.layout_width = Some(width);
    }

    /// The rows from `start` up to `end` of the whole history as it is laid out.
    fn visible_rows(&self, start: u128, end: u128) -> (r: Vec<ReplyRow>)
        requires
            self.wf(),
            self.layout() is Some,
            start <= end <= self.rows_known(),
        ensures
            row_views(r@) == all_rows(self.history(), self.layout()->0).subrange(
                start as int,
                end as int,
            ),
    {
        let ghost w = self.layout()->0;
        let ghost h = self.history();
        let ghost all = all_rows(h, w);
        let n: usize = self.entries.len();
        let mut lo: usize = 0;
        let mut hi: usize = n;
        while lo < hi
            invariant
                lo <= hi <= n,
                n == h.len(),
                counts_rows(self.cumulative_rows@, h, w),
                lo > 0 ==> self.cumulative_rows@[lo - 1] <= start,
            decreases hi - lo,
        {
            let mid: usize = lo + (hi - lo) / 2;
            if self.cumulative_rows[mid] <= start {
                lo = mid + 1;
            } else {
                hi = mid;
            }
        }
        let mut output: Vec<ReplyRow> = Vec::new();
        let mut index: usize = lo;
        let mut entry_start: u128 = if lo == 0 {
            0
        } else {
            self.cumulative_rows[lo - 1]
        };
        proof {
            assert(h.take(0) =~= Seq::<StoredView>::empty());
            assert(h.take(n as int) =~= h);
            assert(all.subrange(start as int, start as int) =~= row_views(output@));
        }
        while index < n && entry_start < end
            invariant
                self.wf(),
                self.layout() == Some(w),
                h == self.history(),
                n == h.len(),
                index <= n,
                all == all_rows(h, w),
                start <= end <= all.len(),
                entry_start as nat == all_rows(h.take(index as int), w).len(),
                row_views(output@) == all.subrange(
                    start as int,
                    reached(entry_start as int, start as int, end as int),
                ),
            decreases n - index,
        {
            let ghost stored = self.entries@[index as int];
            proof {
                assert(stored_wf(stored));
                assert(cached_width(stored) == Some(w));
                assert(h[index as int] == stored_view(stored));
                assert(h.take(index + 1).drop_last() =~= h.take(index as int));
            }
            match &self.entries[index].wrapped {
                Some(wrapped) => {
                    let rows: &Vec<ReplyRow> = &wrapped.rows;
                    let local_start: u128 = start.saturating_sub(entry_start);
                    let count: u128 = rows.len() as u128;
                    let room: u128 = end - entry_start;
                    let local_end: u128 = if room <= count {
                        room
                    } else {
                        count
                    };
                    proof {
                        lemma_view_grows(
                            h,
                            w,
                            index as int,
                            start as int,
                            end as int,
                            row_views(rows@),
                        );
                    }
                    if local_start < local_end {
                        copy_rows(&mut output, rows, local_start as usize, local_end as usize);
                    }
                    entry_start = self.cumulative_rows[index];
                },
                None => {},
            }
            index = index + 1;
        }
        output
    }

    /// Everything that a terminal of the given size shows. The history is wrapped for the width
    /// where it is not yet; a view that is scrolled past the last row is pulled back.
    pub fn frame(&mut self, terminal_width: u16, terminal_height: u16) -> (r: ReplyFrame)
        requires
            old(self).wf(),
        ensures
            final(self).wf(),
            row_views(r.conversation@) == conversation_rows(
                old(self).history(),
                old(self).top(),
                old(self).unread(),
                usable_columns(terminal_width),
                terminal_height,
            ),
            r.separator@ == repeated('─', usable_columns(terminal_width)),
            r.input@ == input_row(old(self).draft_view(), usable_columns(terminal_width)),
            r.cursor_column == input_column(
                old(self).draft_view(),
                usable_columns(terminal_width),
            ),
            r.footer@ == display_front(REPLY_FOOTER@, usable_columns(terminal_width)),
            final(self).history() == old(self).history(),
            final(self).draft_view() == old(self).draft_view(),
            final(self).unread() == old(self).unread(),
            final(self).layout() == Some(usable_columns(terminal_width)),
            final(self).top() == settled_top(
                old(self).history(),
                old(self).top(),
                old(self).unread(),
                usable_columns(terminal_width),
                terminal_height,
            ),
            final(self).wraps() == bounded(
                old(self).wraps() + stale_count(
                    old(self).cached(),
                    usable_columns(terminal_width),
                ),
            ),
    {
        let width: usize = usable_width(terminal_width);
        self.ensure_layout(width);
        let height: u16 = terminal_height.saturating_sub(FIXED_ROWS);
        let marker: bool = self.scroll_top.is_some() && self.unread_chats > 0 && height > 0;
        let capacity: u128 = if marker {
            height as u128 - 1
        } else {
            height as u128
        };
        let bottom: u128 = self.total_rows.saturating_sub(capacity);
        let start: u128 = match self.scroll_top {
            Some(row) => if row <= bottom {
                row
            } else {
                bottom
            },
            None => bottom,
        };
        if self.scroll_top.is_some() {
            self.scroll_top = Some(start);
        }
        let end: u128 = if capacity <= self.total_rows - start {
            start + capacity
        } else {
            self.total_rows
        };
        let mut conversation: Vec<ReplyRow> = self.visible_rows(start, end);
        let ghost shown = conversation@;
        if marker {
            let mut label: String = size_text(self.unread_chats);
            label.append(" new messages");
            conversation.push(
                ReplyRow { text: centered_rule(label.as_str(), width), style: RowStyle::Dim },
            );
            assert(row_views(conversation@) =~= row_views(shown).push(
                marker_row(self.unread(), width as nat),
            ));
        }
        let input: ReplyInputFrame = self.input_frame(terminal_width);
        ReplyFrame {
            conversation,
            separator: repeat_char('─', width),
            input: input.input,
            cursor_column: input.cursor_column,
            footer: display_prefix(REPLY_FOOTER, width),
        }
    }
}

fn copy_rows(output: &mut Vec<ReplyRow>, rows: &Vec<ReplyRow>, from: usize, to: usize)
    requires
        from <= to <= rows@.len(),
    ensures
        row_views(final(output)@) == row_views(old(output)@) + row_views(rows@).subrange(
            from as int,
            to as int,
        ),
{
    let ghost before = output@;
    assert(row_views(output@) =~= row_views(before) + row_views(rows@).subrange(
        from as int,
        from as int,
    ));
    for k in from..to
        invariant
            from <= to <= rows@.len(),
            row_views(output@) =~= row_views(before) + row_views(rows@).subrange(
                from as int,
                k as int,
            ),
    {
        let ghost out = output@;
        output.push(rows[k].clone());
        assert(row_views(output@) =~= row_views(out).push(rows@[k as int]@));
    }
}

proof fn lemma_view_grows(
    history: Seq<StoredView>,
    width: nat,
    index: int,
    start: int,
    end: int,
    views: Seq<RowView>,
)
    requires
        0 <= index < history.len(),
        views == entry_rows(history[index], width),
        0 <= start <= end <= all_rows(history, width).len(),
        all_rows(history.take(index), width).len() < end,
    ensures
        ({
            let all = all_rows(history, width);
            let entry_start = all_rows(history.take(index), width).len() as int;
            let from = if start >= entry_start {
                start - entry_start
            } else {
                0
            };
            let to = if end - entry_start <= views.len() {
                end - entry_start
            } else {
                views.len() as int
            };
            let base = all.subrange(start, reached(entry_start, start, end));
            &&& all_rows(history.take(index + 1), width).len() == entry_start + views.len()
            &&& all.subrange(start, reached(entry_start + views.len(), start, end)) == if from
                < to {
                base + views.subrange(from, to)
            } else {
                base
            }
        }),
{
    let all = all_rows(history, width);
    let entry_start = all_rows(history.take(index), width).len() as int;
    assert(history.take(index + 1).drop_last() =~= history.take(index));
    assert(history.take(index + 1).last() == history[index]);
    lemma_rows_prefix(history, width, index + 1);
    let upto = all_rows(history.take(index + 1), width);
    assert forall|k: int| 0 <= k < views.len() implies all[entry_start + k] == views[k] by {
        assert(upto[entry_start + k] == views[k]);
    }
    let from = if start >= entry_start {
        start - entry_start
    } else {
        0
    };
    let to = if end - entry_start <= views.len() {
        end - entry_start
    } else {
        views.len() as int
    };
    let base = all.subrange(start, reached(entry_start, start, end));
    let grown = all.subrange(start, reached(entry_start + views.len(), start, end));
    if from < to {
        assert(grown =~= base + views.subrange(from, to));
    } else {
        assert(grown =~= base);
    }
}

/// The notes of a list.
pub open spec fn note_views(notes: Seq<HistoryEntry>) -> Seq<NoteView> {
    notes.map_values(|note: HistoryEntry| note@)
}

proof fn lemma_told_ignores_rest(
    history: Seq<StoredView>,
    notes: Seq<NoteView>,
    offsets: Seq<i32>,
    more: i32,
)
    requires
        notes.len() <= offsets.len(),
    ensures
        told(history, notes, offsets.push(more)) == told(history, notes, offsets),
    decreases notes.len(),
{
    if notes.len() > 0 {
        lemma_told_ignores_rest(history, notes.drop_last(), offsets, more);
    }
}

spec fn reached(entry_start: int, start: int, end: int) -> int {
    if entry_start <= start {
        start
    } else if entry_start <= end {
        entry_start
    } else {
        end
    }
}

proof fn lemma_none_stale(list: Seq<StoredEntry>, width: nat)
    requires
        all_wrapped(list, width),
    ensures
        stale_count(cached_widths(list), width) == 0,
    decreases list.len(),
{
    if list.len() > 0 {
        let front = list.drop_last();
        assert forall|i: int| 0 <= i < front.len() implies cached_width(#[trigger] front[i])
            == Some(width) by {
            assert(front[i] == list[i]);
        }
        lemma_none_stale(front, width);
        assert(cached_widths(list).drop_last() =~= cached_widths(front));
        assert(cached_width(list[list.len() - 1]) == Some(width));
    }
}

proof fn lemma_rows_prefix(history: Seq<StoredView>, width: nat, n: int)
    requires
        0 <= n <= history.len(),
    ensures
        all_rows(history.take(n), width).len() <= all_rows(history, width).len(),
        all_rows(history.take(n), width) == all_rows(history, width).take(
            all_rows(history.take(n), width).len() as int,
        ),
    decreases history.len() - n,
{
    let part = all_rows(history.take(n), width);
    if n == history.len() {
        assert(history.take(n) =~= history);
        assert(part.take(part.len() as int) =~= part);
    } else {
        lemma_rows_prefix(history, width, n + 1);
        assert(history.take(n + 1).drop_last() =~= history.take(n));
        let next = all_rows(history.take(n + 1), width);
        assert(next =~= part + entry_rows(history[n], width));
        assert(part =~= all_rows(history, width).take(part.len() as int));
    }
}

proof fn lemma_row_total_bound(list: Seq<StoredEntry>, width: nat)
    requires
        all_wf(list),
        all_wrapped(list, width),
    ensures
        all_rows(stored_views(list), width).len() <= list.len() * 0xffff_ffff_ffff_ffff,
    decreases list.len(),
{
    if list.len() > 0 {
        let front = list.drop_last();
        let last = list.last();
        assert forall|i: int| 0 <= i < front.len() implies stored_wf(#[trigger] front[i]) by {
            assert(front[i] == list[i]);
        }
        assert forall|i: int| 0 <= i < front.len() implies cached_width(#[trigger] front[i])
            == Some(width) by {
            assert(front[i] == list[i]);
        }
        lemma_row_total_bound(front, width);
        assert(stored_wf(list[list.len() - 1]));
        assert(cached_width(list[list.len() - 1]) == Some(width));
        assert(stored_views(list).drop_last() =~= stored_views(front));
        assert(stored_views(list).last() == stored_view(last));
        assert(row_views(last.wrapped->0.rows@).len() == last.wrapped->0.rows.len());
    }
}

/// Once the history is laid out for a width, nothing has to be wrapped again for it: a second
/// frame of the same width wraps nothing.
pub proof fn lemma_layout_is_reused(ui: ReplyUiState, width: nat)
    requires
        ui.wf(),
        ui.layout() == Some(width),
    ensures
        stale_count(ui.cached(), width) == 0,
{
    lemma_none_stale(ui.entries@, width);
}

/// An entry that joins a laid out history is wrapped once, on arrival, and no other is.
pub proof fn lemma_append_wraps_once(
    before: ReplyUiState,
    after: ReplyUiState,
    new: StoredView,
    width: nat,
)
    requires
        before.wf(),
        after.wf(),
        before.layout() == Some(width),
        before.history().len() < REPLY_HISTORY_LIMIT,
        after.received(&before, new),
    ensures
        after.wraps() == bounded(before.wraps() + 1),
        stale_count(after.cached(), width) == 0,
{
    lemma_layout_is_reused(after, width);
}

/// An entry that joins a full, laid out history leaves the wrapped rows of the others in place:
/// only the entry itself is wrapped, and the new first one if it continued or followed the one
/// that left, at once where a view is scrolled up and else when it is next shown.
pub proof fn lemma_eviction_keeps_rows(
    before: ReplyUiState,
    after: ReplyUiState,
    new: StoredView,
    width: nat,
)
    requires
        before.wf(),
        after.wf(),
        before.layout() == Some(width),
        before.history().len() == REPLY_HISTORY_LIMIT,
        after.received(&before, new),
    ensures
        ({
            let redrawn = before.history()[1].grouped || before.history()[1].day_separator is Some;
            &&& after.wraps() == if redrawn && before.top() is Some {
                bounded(before.wraps() + 1)
            } else {
                before.wraps()
            }
            &&& stale_count(after.cached(), width) == if redrawn && before.top() is None {
                2nat
            } else {
                1nat
            }
        }),
{
    before.lemma_state();
    assert(before.cached()[1] == before.layout());
    let kept = before.cached().drop_first();
    assert forall|i: int| 0 <= i < kept.len() implies kept[i] == Some(width) by {
        assert(before.cached()[i + 1] == before.layout());
    }
    lemma_stale_uniform(kept, width);
    let second = before.history()[1];
    if (second.grouped || second.day_separator is Some) && before.top() is None {
        lemma_stale_first(kept, width);
        assert(after.cached().drop_last() =~= kept.update(0, None));
    } else {
        assert(after.cached().drop_last() =~= kept);
    }
}

proof fn lemma_stale_uniform(cached: Seq<Option<nat>>, width: nat)
    requires
        forall|i: int| 0 <= i < cached.len() ==> cached[i] == Some(width),
    ensures
        stale_count(cached, width) == 0,
    decreases cached.len(),
{
    if cached.len() > 0 {
        lemma_stale_uniform(cached.drop_last(), width);
    }
}

proof fn lemma_stale_first(cached: Seq<Option<nat>>, width: nat)
    requires
        cached.len() > 0,
        forall|i: int| 0 <= i < cached.len() ==> cached[i] == Some(width),
    ensures
        stale_count(cached.update(0, None), width) == 1,
    decreases cached.len(),
{
    if cached.len() == 1 {
        assert(cached.update(0, None).drop_last() =~= Seq::<Option<nat>>::empty());
        assert(stale_count(Seq::<Option<nat>>::empty(), width) == 0);
    } else {
        lemma_stale_first(cached.drop_last(), width);
        assert(cached.update(0, None).drop_last() =~= cached.drop_last().update(0, None));
    }
}

/// A view that is scrolled up stays where it is when an entry arrives: the rows in it are rows
/// that were there before, from the same row on.
pub proof fn lemma_scrolled_view_stays(
    history: Seq<StoredView>,
    new: StoredView,
    row: nat,
    unread: nat,
    width: nat,
    terminal_height: u16,
)
    requires
        history.len() < REPLY_HISTORY_LIMIT,
        row + row_capacity(Some(row), unread, terminal_height) <= all_rows(history, width).len(),
    ensures
        ({
            let capacity = row_capacity(Some(row), unread, terminal_height) as int;
            let shown = conversation_rows(
                extended(history, new),
                Some(row),
                unread,
                width,
                terminal_height,
            );
            shown.take(capacity) == all_rows(history, width).subrange(
                row as int,
                row + capacity,
            )
        }),
{
    let longer = extended(history, new);
    assert(longer.drop_last() =~= history);
    let rows = all_rows(history, width);
    let more = all_rows(longer, width);
    assert(more =~= rows + entry_rows(new, width));
    let capacity = row_capacity(Some(row), unread, terminal_height) as int;
    let shown = conversation_rows(longer, Some(row), unread, width, terminal_height);
    assert(first_row(Some(row), more.len(), capacity as nat) == row);
    assert(shown.take(capacity) =~= rows.subrange(row as int, row + capacity));
}

proof fn lemma_rows_front(history: Seq<StoredView>, width: nat)
    requires
        history.len() > 0,
    ensures
        all_rows(history, width) == entry_rows(history[0], width) + all_rows(
            history.drop_first(),
            width,
        ),
    decreases history.len(),
{
    let front = history.drop_last();
    let rest = history.drop_first();
    if history.len() == 1 {
        assert(front =~= Seq::<StoredView>::empty());
        assert(rest =~= Seq::<StoredView>::empty());
        assert(all_rows(front, width).len() == 0);
        assert(all_rows(history, width) =~= entry_rows(history[0], width));
        assert(entry_rows(history[0], width) + all_rows(rest, width) =~= entry_rows(
            history[0],
            width,
        ));
    } else {
        lemma_rows_front(front, width);
        assert(front.drop_first() =~= rest.drop_last());
        assert(rest.last() == history.last());
        assert(all_rows(history, width) =~= entry_rows(history[0], width) + all_rows(rest, width));
    }
}

/// The same when the history is full and loses its oldest entry: the top row counts without what
/// is gone, and the same rows stay in view. A date above the entry that becomes the first goes
/// with the lost entry. A view that shows rows which are gone, or a message that is no
/// continuation any more, cannot stay the same.
pub proof fn lemma_full_view_stays(
    before: ReplyUiState,
    after: ReplyUiState,
    new: StoredView,
    row: nat,
    width: nat,
    terminal_height: u16,
)
    requires
        before.wf(),
        after.wf(),
        before.layout() == Some(width),
        before.history().len() == REPLY_HISTORY_LIMIT,
        after.received(&before, new),
        before.top() == Some(row),
        row + row_capacity(after.top(), after.unread(), terminal_height) <= all_rows(
            before.history(),
            width,
        ).len(),
        row >= entry_rows(before.history()[0], width).len() + if before.history()[1].grouped {
            entry_rows(before.history()[1], width).len()
        } else {
            separator_rows(before.history()[1].day_separator, width).len()
        },
    ensures
        ({
            let capacity = row_capacity(after.top(), after.unread(), terminal_height) as int;
            let shown = conversation_rows(
                after.history(),
                after.top(),
                after.unread(),
                width,
                terminal_height,
            );
            shown.take(capacity) == all_rows(before.history(), width).subrange(
                row as int,
                row + capacity,
            )
        }),
{
    before.lemma_state();
    assert(before.cached()[0] == before.layout());
    assert(before.cached()[1] == before.layout());
    let history = before.history();
    let lost = entry_rows(history[0], width);
    let second = entry_rows(history[1], width);
    let drawn = entry_rows(detached(history[1]), width);
    let kept = history.drop_first();
    let longer = after.history();
    let anew = longer.drop_last();
    assert(anew =~= kept.update(0, detached(history[1])));
    assert(anew.drop_first() =~= kept.drop_first());
    lemma_rows_front(history, width);
    lemma_rows_front(kept, width);
    lemma_rows_front(anew, width);
    let rest = all_rows(kept.drop_first(), width);
    let rows = all_rows(history, width);
    let more = all_rows(longer, width);
    assert(rows =~= lost + second + rest);
    assert(more =~= drawn + rest + entry_rows(new, width));
    lemma_row_total_bound(before.entries@, width);
    assert(drawn.len() <= usize::MAX) by {
        let first = after.entries@[0];
        assert(stored_wf(first));
        assert(after.history()[0] == stored_view(first));
        assert(after.cached()[0] == cached_width(first));
        assert(row_views(first.wrapped->0.rows@).len() == first.wrapped->0.rows.len());
    }
    if !history[1].grouped {
        assert(second =~= separator_rows(history[1].day_separator, width) + drawn);
    }
    let top = lowered(row, history, before.cached());
    assert(top == row + drawn.len() - lost.len() - second.len());
    let capacity = row_capacity(after.top(), after.unread(), terminal_height) as int;
    let shown = conversation_rows(longer, after.top(), after.unread(), width, terminal_height);
    assert(first_row(Some(top), more.len(), capacity as nat) == top);
    let view = more.subrange(top as int, top + capacity);
    assert forall|k: int| 0 <= k < capacity implies #[trigger] view[k] == rows[row + k] by {
        if top + k < drawn.len() {
            assert(more[top + k] == drawn[top + k]);
            assert(rows[row + k] == second[row + k - lost.len()]);
        } else {
            assert(more[top + k] == rest[top + k - drawn.len()]);
            assert(rows[row + k] == rest[row + k - lost.len() - second.len()]);
        }
    }
    assert(view =~= rows.subrange(row as int, row + capacity));
    assert(shown.take(capacity) =~= view);
}

/// A view that follows the newest row shows the last rows of the history, as many as fit.
pub proof fn lemma_bottom_shows_newest(
    history: Seq<StoredView>,
    unread: nat,
    width: nat,
    terminal_height: u16,
)
    ensures
        ({
            let rows = all_rows(history, width);
            conversation_rows(history, None, unread, width, terminal_height) == rows.skip(
                minus(rows.len(), conversation_height(terminal_height)) as int,
            )
        }),
{
    let rows = all_rows(history, width);
    let top = minus(rows.len(), conversation_height(terminal_height)) as int;
    assert(conversation_rows(history, None, unread, width, terminal_height) =~= rows.skip(top));
}

/// Never more rows are shown than there is room for.
pub proof fn lemma_conversation_fits(
    history: Seq<StoredView>,
    top: Option<nat>,
    unread: nat,
    width: nat,
    terminal_height: u16,
)
    ensures
        conversation_rows(history, top, unread, width, terminal_height).len()
            <= conversation_height(terminal_height),
{
}

/// Scrolling up and then down by as much comes back to the same row, or to the bottom.
pub proof fn lemma_scroll_up_and_down(
    before: ReplyUiState,
    up: ReplyUiState,
    down: ReplyUiState,
    rows: isize,
    terminal_height: u16,
)
    requires
        before.wf(),
        rows >= 0,
        up.moved(&before, ScrollDelta::Rows((-rows) as isize), terminal_height),
        down.moved(&up, ScrollDelta::Rows(rows), terminal_height),
    ensures
        before.top() is None ==> down.top() is None && down.unread() == 0,
        before.top() is Some && rows <= before.top()->0 < minus(
            before.rows_known(),
            conversation_height(terminal_height),
        ) ==> down.top() == before.top() && down.unread() == before.unread(),
        down.draft_view() == before.draft_view(),
{
}

/// A scroll as far down as can be said ends at the bottom, where nothing is unread. No history
/// that fits into memory has more rows than that.
pub proof fn lemma_scroll_to_the_end(
    before: ReplyUiState,
    after: ReplyUiState,
    terminal_height: u16,
)
    requires
        before.wf(),
        before.rows_known() <= isize::MAX,
        after.moved(&before, ScrollDelta::Rows(isize::MAX), terminal_height),
    ensures
        after.top() is None,
        after.unread() == 0,
        after.draft_view() == before.draft_view(),
{
}

/// However far a scroll goes, the view stays above the bottom or follows it, and what is unread
/// is forgotten only at the bottom.
pub proof fn lemma_scroll_stays_inside(
    before: ReplyUiState,
    after: ReplyUiState,
    delta: ScrollDelta,
    terminal_height: u16,
)
    requires
        before.wf(),
        after.moved(&before, delta, terminal_height),
    ensures
        after.top() is Some ==> after.top()->0 < minus(
            before.rows_known(),
            conversation_height(terminal_height),
        ) && after.unread() == before.unread(),
        after.top() is None ==> after.unread() == 0,
        after.draft_view() == before.draft_view(),
        after.history() == before.history(),
{
}

proof fn lemma_history_control_free(history: Seq<StoredView>, width: nat)
    requires
        forall|i: int| 0 <= i < history.len() ==> (#[trigger] history[i]).is_clean(),
    ensures
        forall|k: int|
            0 <= k < all_rows(history, width).len() ==> control_free(
                (#[trigger] all_rows(history, width)[k]).text,
            ),
    decreases history.len(),
{
    if history.len() > 0 {
        let front = history.drop_last();
        assert forall|i: int| 0 <= i < front.len() implies (#[trigger] front[i]).is_clean() by {
            assert(front[i] == history[i]);
        }
        lemma_history_control_free(front, width);
        let above = all_rows(front, width);
        let last = history[history.len() - 1];
        assert(last.is_clean());
        assert forall|k: int| 0 <= k < all_rows(history, width).len() implies control_free(
            (#[trigger] all_rows(history, width)[k]).text,
        ) by {
            if k < above.len() {
                assert(all_rows(history, width)[k] == above[k]);
            } else {
                lemma_rows_control_free(last, width, k - above.len());
            }
        }
    }
}

/// Whatever was received or typed, nothing that the surface shows holds a control character.
pub proof fn lemma_surface_is_inert(ui: ReplyUiState, terminal_width: u16, terminal_height: u16)
    requires
        ui.wf(),
    ensures
        ({
            let width = usable_columns(terminal_width);
            let rows = conversation_rows(
                ui.history(),
                ui.top(),
                ui.unread(),
                width,
                terminal_height,
            );
            &&& forall|k: int| 0 <= k < rows.len() ==> control_free((#[trigger] rows[k]).text)
            &&& control_free(input_row(ui.draft_view(), width))
            &&& control_free(repeated('─', width))
            &&& control_free(display_front(REPLY_FOOTER@, width))
        }),
{
    ui.lemma_state();
    let width = usable_columns(terminal_width);
    lemma_history_control_free(ui.history(), width);
    let all = all_rows(ui.history(), width);
    let rows = conversation_rows(ui.history(), ui.top(), ui.unread(), width, terminal_height);
    let capacity = row_capacity(ui.top(), ui.unread(), terminal_height);
    let start = first_row(ui.top(), all.len(), capacity);
    let label = decimal(ui.unread()) + " new messages"@;
    crate::digits::lemma_decimal_digits(ui.unread());
    reveal_strlit(" new messages");
    assert(control_free(label)) by {
        assert forall|i: int| 0 <= i < label.len() implies !crate::text::is_control(
            #[trigger] label[i],
        ) by {
            if i < decimal(ui.unread()).len() {
                assert(label[i] == decimal(ui.unread())[i]);
            } else {
                assert(label[i] == " new messages"@[i - decimal(ui.unread()).len()]);
            }
        }
    }
    crate::layout::lemma_ruled_control_free(label, width);
    assert forall|k: int| 0 <= k < rows.len() implies control_free((#[trigger] rows[k]).text) by {
        if shows_marker(ui.top(), ui.unread(), terminal_height) && k == rows.len() - 1 {
            assert(rows[k] == marker_row(ui.unread(), width));
        } else {
            assert(rows[k] == all[start + k]);
        }
    }
    crate::draft::lemma_input_row_control_free(ui.draft_view(), width);
    reveal_strlit("↑↓ scroll  PgUp/PgDn page  Enter send  Ctrl-C quit  /help");
    crate::width::lemma_fit_count(REPLY_FOOTER@, width);
    assert(control_free(REPLY_FOOTER@));
}

/// A message joins the history as it is: its time, its sender and its text, the two made inert;
/// so does a status line, which never continues a message and has no date above it.
pub proof fn lemma_entries_say_what_arrived(
    history: Seq<StoredView>,
    chat: ChatEntry,
    offset: i32,
    line: Seq<char>,
)
    ensures
        ({
            let new = arrival(history, chat, offset);
            &&& new.entry is Chat
            &&& new.entry->timestamp == chat.timestamp
            &&& new.entry->offset == offset
            &&& new.entry->sender == sanitized(chat.sender@)
            &&& new.entry->Chat_text == sanitized(chat.text@)
        }),
        ({
            let new = status_entry(line);
            &&& new.entry is System
            &&& new.entry->System_text == sanitized(line)
            &&& !new.grouped
            &&& new.day_separator is None
        }),
{
}

/// A message continues the entry directly above it exactly where that is a message of the same
/// sender and the same local day, not later than it and at most three hundred seconds before it.
pub proof fn lemma_when_a_message_continues(
    history: Seq<StoredView>,
    timestamp: Timestamp,
    offset: i32,
    sender: Seq<char>,
    text: Seq<char>,
)
    ensures
        ({
            let new = chat_after(history, timestamp, offset, sender, text);
            let above = history.last().entry;
            &&& history.len() == 0 ==> !new.grouped
            &&& history.len() > 0 && above is System ==> !new.grouped
            &&& history.len() > 0 && above is Chat ==> (new.grouped <==> {
                &&& above->sender == sender
                &&& (above->timestamp.unix_seconds() + above->offset) / 86400 == (
                timestamp.unix_seconds() + offset) / 86400
                &&& 0 <= timestamp.seconds_after(above->timestamp) <= 300
            })
        }),
{
}

/// The date stands above a message exactly where the last message before it, whatever status lines
/// stand between the two, was of another local day; the first message has none.
pub proof fn lemma_when_the_date_is_shown(
    history: Seq<StoredView>,
    k: int,
    timestamp: Timestamp,
    offset: i32,
    sender: Seq<char>,
    text: Seq<char>,
)
    ensures
        ({
            let new = chat_after(history, timestamp, offset, sender, text);
            &&& (forall|i: int| 0 <= i < history.len() ==> (#[trigger] history[i]).entry is System)
                ==> new.day_separator is None
            &&& 0 <= k < history.len() && history[k].entry is Chat && (forall|i: int|
                k < i < history.len() ==> (#[trigger] history[i]).entry is System)
                ==> new.day_separator == if (history[k].entry->timestamp.unix_seconds()
                + history[k].entry->offset) / 86400 != (timestamp.unix_seconds() + offset) / 86400 {
                Some(date_at_offset(timestamp.unix_seconds(), offset))
            } else {
                None
            }
        }),
{
    lemma_last_chat_is_last(history, k);
}

proof fn lemma_last_chat_is_last(history: Seq<StoredView>, k: int)
    ensures
        (forall|i: int| 0 <= i < history.len() ==> (#[trigger] history[i]).entry is System)
            ==> last_chat(history) is None,
        0 <= k < history.len() && history[k].entry is Chat && (forall|i: int|
            k < i < history.len() ==> (#[trigger] history[i]).entry is System) ==> last_chat(
            history,
        ) == Some(history[k].entry),
    decreases history.len(),
{
    if history.len() > 0 {
        let front = history.drop_last();
        lemma_last_chat_is_last(front, k);
        if forall|i: int| 0 <= i < history.len() ==> (#[trigger] history[i]).entry is System {
            assert(history[history.len() - 1].entry is System);
            assert forall|i: int| 0 <= i < front.len() implies (
            #[trigger] front[i]).entry is System by {
                assert(history[i].entry is System);
            }
        }
        if 0 <= k < history.len() - 1 && history[k].entry is Chat && (forall|i: int|
            k < i < history.len() ==> (#[trigger] history[i]).entry is System) {
            assert(history[history.len() - 1].entry is System);
            assert forall|i: int| k < i < front.len() implies (
            #[trigger] front[i]).entry is System by {
                assert(history[i].entry is System);
            }
        }
    }
}

/// A new entry is always the last. A history of fewer than two thousand entries keeps them all; a
/// full one loses its oldest and keeps what every other says.
pub proof fn lemma_history_keeps_the_newest(history: Seq<StoredView>, new: StoredView)
    requires
        history.len() <= 2000,
    ensures
        extended(history, new).len() == if history.len() < 2000 {
            history.len() + 1
        } else {
            2000
        },
        extended(history, new).last() == new,
        history.len() < 2000 ==> forall|i: int|
            0 <= i < history.len() ==> (#[trigger] extended(history, new)[i]) == history[i],
        history.len() == 2000 ==> forall|i: int|
            1 <= i < 1999 ==> (#[trigger] extended(history, new)[i]) == history[i + 1],
        history.len() == 2000 ==> extended(history, new)[0].entry == history[1].entry
            && !extended(history, new)[0].grouped && extended(history, new)[0].day_separator is None,
{
}

/// Notes join the history in their order, the last one last, and none is left out while there is
/// room.
pub proof fn lemma_every_note_is_told(
    history: Seq<StoredView>,
    notes: Seq<NoteView>,
    offsets: Seq<i32>,
)
    requires
        history.len() + notes.len() <= 2000,
    ensures
        told(history, notes, offsets).len() == history.len() + notes.len(),
        forall|i: int|
            0 <= i < history.len() ==> (#[trigger] told(history, notes, offsets)[i]) == history[i],
        forall|i: int|
            0 <= i < notes.len() ==> says_note(
                told(history, notes, offsets)[history.len() + i],
                #[trigger] notes[i],
            ),
    decreases notes.len(),
{
    if notes.len() > 0 {
        let front = notes.drop_last();
        lemma_every_note_is_told(history, front, offsets);
        let before = told(history, front, offsets);
        let after = told(history, notes, offsets);
        assert forall|i: int| 0 <= i < notes.len() implies says_note(
            after[history.len() + i],
            #[trigger] notes[i],
        ) by {
            if i < front.len() {
                assert(says_note(before[history.len() + i], front[i]));
                assert(after[history.len() + i] == before[history.len() + i]);
            }
        }
    }
}

/// An entry says what a note says, made inert.
pub open spec fn says_note(stored: StoredView, note: NoteView) -> bool {
    match note {
        NoteView::Chat { timestamp, sender, text } => stored.entry matches EntryView::Chat {
            timestamp: at,
            offset,
            sender: who,
            text: what,
        } && at == timestamp && who == sanitized(sender) && what == sanitized(text),
        NoteView::System { text } => stored.entry matches EntryView::System { text: what } && what
            == sanitized(text),
    }
}

/// The chat messages among notes are counted, the status lines are not.
pub proof fn lemma_chat_notes_are_counted(notes: Seq<NoteView>)
    ensures
        chat_notes(notes) == notes.filter(|note: NoteView| note is Chat).len(),
    decreases notes.len(),
{
    reveal(Seq::filter);
    if notes.len() > 0 {
        lemma_chat_notes_are_counted(notes.drop_last());
    }
}

/// The rows of the entries stand one entry below the other, oldest first.
pub proof fn lemma_rows_entry_by_entry(history: Seq<StoredView>, i: int, width: nat)
    requires
        0 <= i < history.len(),
    ensures
        all_rows(history, width) == all_rows(history.take(i), width) + entry_rows(
            history[i],
            width,
        ) + all_rows(history.skip(i + 1), width),
        all_rows(Seq::<StoredView>::empty(), width).len() == 0,
    decreases history.len(),
{
    let front = history.drop_last();
    if i == history.len() - 1 {
        assert(history.take(i) =~= front);
        assert(history.skip(i + 1) =~= Seq::<StoredView>::empty());
        assert(all_rows(history, width) =~= all_rows(history.take(i), width) + entry_rows(
            history[i],
            width,
        ) + all_rows(history.skip(i + 1), width));
    } else {
        lemma_rows_entry_by_entry(front, i, width);
        let rest = history.skip(i + 1);
        assert(front.take(i) =~= history.take(i));
        assert(rest.drop_last() =~= front.skip(i + 1));
        assert(rest.last() == history.last());
        assert(all_rows(history, width) =~= all_rows(history.take(i), width) + entry_rows(
            history[i],
            width,
        ) + all_rows(rest, width));
    }
}

/// The conversation fills all rows of the terminal but three; a page is one row less, so that the
/// row at one edge is seen again at the other, and never less than a row.
pub proof fn lemma_rows_of_a_page(terminal_height: u16, rows: isize)
    ensures
        terminal_height >= 3 ==> conversation_height(terminal_height) == terminal_height - 3,
        terminal_height < 3 ==> conversation_height(terminal_height) == 0,
        scroll_amount(ScrollDelta::Rows(rows), terminal_height) == rows,
        terminal_height >= 5 ==> scroll_amount(ScrollDelta::Pages(1), terminal_height)
            == conversation_height(terminal_height) - 1,
        terminal_height < 5 ==> scroll_amount(ScrollDelta::Pages(1), terminal_height) == 1,
        rows == -1 ==> scroll_amount(ScrollDelta::Pages(rows), terminal_height) == -scroll_amount(
            ScrollDelta::Pages(1),
            terminal_height,
        ),
        scroll_amount(ScrollDelta::Pages(0), terminal_height) == 0,
{
    let page = if terminal_height >= 5 {
        terminal_height - 4
    } else {
        1
    };
    assert(1 * page == page && -1 * page == -page && 0 * page == 0) by (nonlinear_arith);
    assert(rows == -1 ==> rows * page == -1 * page);
}

/// A scroll moves the view by as many rows as asked for, upwards for a negative number, and stops
/// at the two ends.
pub proof fn lemma_scroll_moves_by_rows(
    before: ReplyUiState,
    after: ReplyUiState,
    rows: isize,
    terminal_height: u16,
)
    requires
        before.wf(),
        after.moved(&before, ScrollDelta::Rows(rows), terminal_height),
    ensures
        ({
            let height = if terminal_height >= 3 {
                terminal_height - 3
            } else {
                0
            };
            let bottom = if before.rows_known() >= height {
                before.rows_known() - height
            } else {
                0
            };
            let from = match before.top() {
                Some(row) => row as int,
                None => bottom,
            };
            &&& from + rows >= bottom ==> after.top() is None && after.unread() == 0
            &&& 0 <= from + rows < bottom ==> after.top() == Some((from + rows) as nat)
            &&& from + rows < 0 && bottom > 0 ==> after.top() == Some(0nat)
        }),
{
}

/// A view that is scrolled up shows the rows from its top row on, as many as there is room for.
pub proof fn lemma_scrolled_view_shows_its_rows(
    history: Seq<StoredView>,
    row: nat,
    width: nat,
    terminal_height: u16,
)
    requires
        terminal_height >= 3,
        row + terminal_height - 3 <= all_rows(history, width).len(),
    ensures
        conversation_rows(history, Some(row), 0, width, terminal_height) == all_rows(
            history,
            width,
        ).subrange(row as int, row + terminal_height - 3),
{
    assert(conversation_rows(history, Some(row), 0, width, terminal_height) =~= all_rows(
        history,
        width,
    ).subrange(row as int, row + terminal_height - 3));
}

/// Unread messages are pointed at in the last row of the conversation, with their number, exactly
/// where the view is scrolled up and there is a row for it; everything above that row is shown as
/// without it.
pub proof fn lemma_unread_are_pointed_at(
    history: Seq<StoredView>,
    top: Option<nat>,
    unread: nat,
    width: nat,
    terminal_height: u16,
)
    requires
        terminal_height >= 4,
    ensures
        ({
            let shown = conversation_rows(history, top, unread, width, terminal_height);
            &&& top is Some && unread > 0 ==> shown.len() > 0 && shown.last() == (RowView {
                text: ruled_label(decimal(unread) + " new messages"@, width),
                style: RowStyle::Dim,
            }) && shown.len() <= terminal_height - 3
            &&& top is None || unread == 0 ==> forall|i: int|
                0 <= i < shown.len() ==> all_rows(history, width).contains(#[trigger] shown[i])
        }),
{
    let shown = conversation_rows(history, top, unread, width, terminal_height);
    let rows = all_rows(history, width);
    if top is None || unread == 0 {
        let start = first_row(top, rows.len(), row_capacity(top, unread, terminal_height));
        assert forall|i: int| 0 <= i < shown.len() implies rows.contains(#[trigger] shown[i]) by {
            assert(shown[i] == rows[start + i]);
        }
    }
}

/// A message that arrives while the view is scrolled up is counted as unread; a status line is
/// not, and at the bottom nothing is.
pub proof fn lemma_what_counts_as_unread(
    before: ReplyUiState,
    after: ReplyUiState,
    new: StoredView,
)
    requires
        before.wf(),
        after.received(&before, new),
    ensures
        before.top() is Some && new.entry is Chat && before.unread() < usize::MAX ==> after.unread()
            == before.unread() + 1,
        new.entry is System ==> after.unread() == before.unread(),
        before.top() is None ==> after.unread() == 0,
        after.draft_view() == before.draft_view(),
        after.history().last() == new,
{
    before.lemma_state();
}

/// What is shown settles where it is: showing the same conversation again shows the same rows.
pub proof fn lemma_settled_view_is_the_same(
    history: Seq<StoredView>,
    top: Option<nat>,
    unread: nat,
    width: nat,
    terminal_height: u16,
)
    ensures
        conversation_rows(
            history,
            settled_top(history, top, unread, width, terminal_height),
            unread,
            width,
            terminal_height,
        ) == conversation_rows(history, top, unread, width, terminal_height),
        settled_top(history, top, unread, width, terminal_height) is Some <==> top is Some,
{
}

} // verus!
