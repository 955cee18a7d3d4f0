//! What keys and pastes do to the line being typed.
use crate::draft::DraftView;
use crate::reply_ui::{ReplyUiState, ScrollDelta};
use crate::text::{char_is_control, is_control, is_white};
use vstd::prelude::*;

verus! {

/// The keys that the reply surface tells apart.
#[derive(Debug, Clone, Copy, PartialEq, Eq, Structural)]
pub enum KeyCode {
    Enter,
    Backspace,
    Delete,
    Left,
    Right,
    Home,
    End,
    Up,
    Down,
    PageUp,
    PageDown,
    Char(char),
    Other,
}

/// A key event: the key, whether Control is held, and whether the key is let go.
#[derive(Debug, Clone, Copy, PartialEq, Eq, Structural)]
pub struct KeyPress {
    pub code: KeyCode,
    pub control: bool,
    pub release: bool,
}

/// A terminal event, already decoded.
#[derive(Debug, PartialEq, Eq)]
pub enum InputEvent {
    Resize,
    Paste(String),
    Key(KeyPress),
    Other,
}

/// A terminal event with the text of a paste.
pub enum EventView {
    Resize,
    Paste(Seq<char>),
    Key(KeyPress),
    Other,
}

impl View for InputEvent {
    type V = EventView;

    open spec fn view(&self) -> EventView {
        match self {
            InputEvent::Resize => EventView::Resize,
            InputEvent::Paste(text) => EventView::Paste(text@),
            InputEvent::Key(key) => EventView::Key(*key),
            InputEvent::Other => EventView::Other,
        }
    }
}

/// What the user asks for beyond editing.
#[derive(Debug, PartialEq, Eq)]
pub enum ReplyTerminalAction {
    Submit(String),
    Scroll(ScrollDelta),
    Quit,
}

/// What the user asks for, with the text that is submitted.
pub enum ActionView {
    Submit(Seq<char>),
    Scroll(ScrollDelta),
    Quit,
}

impl View for ReplyTerminalAction {
    type V = ActionView;

    open spec fn view(&self) -> ActionView {
        match self {
            ReplyTerminalAction::Submit(text) => ActionView::Submit(text@),
            ReplyTerminalAction::Scroll(delta) => ActionView::Scroll(*delta),
            ReplyTerminalAction::Quit => ActionView::Quit,
        }
    }
}

/// The actions of a list.
pub open spec fn action_views(actions: Seq<ReplyTerminalAction>) -> Seq<ActionView> {
    actions.map_values(|action: ReplyTerminalAction| action@)
}

/// The events of a list.
pub open spec fn event_views(events: Seq<InputEvent>) -> Seq<EventView> {
    events.map_values(|event: InputEvent| event@)
}

/// How much of the terminal has to be drawn again.
#[derive(Debug, Clone, Copy, PartialEq, Eq, Structural)]
pub enum ReplyRedraw {
    Nothing,
    Input,
    Full,
}

/// What a batch of events asks for.
#[derive(Debug)]
pub struct ReplyInputBatch {
    pub actions: Vec<ReplyTerminalAction>,
    pub redraw: ReplyRedraw,
}

/// The most events that are taken in at once.
pub const REPLY_INPUT_EVENT_LIMIT: usize = 256;

/// Nanoseconds for which the next event of a burst is waited for.
pub const REPLY_INPUT_BURST_GRACE: u128 = 2_000_000;

/// Nanoseconds that taking in a burst may last.
pub const REPLY_INPUT_BATCH_LIMIT: u128 = 8_000_000;

/// For how long the next event of a burst is waited for, or nothing where the burst is taken as
/// it is: it is large enough, or lasted long enough.
pub fn burst_wait(events: usize, nanos_spent: u128) -> (r: Option<u128>)
    ensures
        r is Some <==> events < REPLY_INPUT_EVENT_LIMIT && nanos_spent < REPLY_INPUT_BATCH_LIMIT,
        r is Some ==> r->0 == if nanos_spent + REPLY_INPUT_BURST_GRACE
            <= REPLY_INPUT_BATCH_LIMIT {
            REPLY_INPUT_BURST_GRACE as int
        } else {
            REPLY_INPUT_BATCH_LIMIT - nanos_spent
        },
{
    if events >= REPLY_INPUT_EVENT_LIMIT || nanos_spent >= REPLY_INPUT_BATCH_LIMIT {
        return None;
    }
    let rest: u128 = REPLY_INPUT_BATCH_LIMIT - nanos_spent;
    if REPLY_INPUT_BURST_GRACE <= rest {
        Some(REPLY_INPUT_BURST_GRACE)
    } else {
        Some(rest)
    }
}

/// What a key does.
#[derive(Debug, Clone, Copy, PartialEq, Eq, Structural)]
pub enum KeyEffect {
    Quit,
    Submit,
    Backspace,
    Delete,
    Left,
    Right,
    Home,
    End,
    KillWord,
    KillHead,
    KillTail,
    Type(char),
    Scroll(ScrollDelta),
    Nothing,
}

/// What a key does. Control with C or D quits whatever else it might mean; a carriage return or
/// line feed that arrives as a key submits like Enter.
pub open spec fn effect_of(code: KeyCode, control: bool) -> KeyEffect {
    match code {
        KeyCode::Enter => KeyEffect::Submit,
        KeyCode::Backspace => KeyEffect::Backspace,
        KeyCode::Delete => KeyEffect::Delete,
        KeyCode::Left => KeyEffect::Left,
        KeyCode::Right => KeyEffect::Right,
        KeyCode::Home => KeyEffect::Home,
        KeyCode::End => KeyEffect::End,
        KeyCode::Up => KeyEffect::Scroll(ScrollDelta::Rows((-1) as isize)),
        KeyCode::Down => KeyEffect::Scroll(ScrollDelta::Rows(1)),
        KeyCode::PageUp => KeyEffect::Scroll(ScrollDelta::Pages((-1) as isize)),
        KeyCode::PageDown => KeyEffect::Scroll(ScrollDelta::Pages(1)),
        KeyCode::Char(c) => if c == '\r' || c == '\n' {
            KeyEffect::Submit
        } else if !control {
            if is_control(c) {
                KeyEffect::Nothing
            } else {
                KeyEffect::Type(c)
            }
        } else if c == 'c' || c == 'd' {
            KeyEffect::Quit
        } else if c == 'a' {
            KeyEffect::Home
        } else if c == 'b' {
            KeyEffect::Left
        } else if c == 'e' {
            KeyEffect::End
        } else if c == 'f' {
            KeyEffect::Right
        } else if c == 'w' {
            KeyEffect::KillWord
        } else if c == 'u' {
            KeyEffect::KillHead
        } else if c == 'k' {
            KeyEffect::KillTail
        } else {
            KeyEffect::Nothing
        },
        KeyCode::Other => KeyEffect::Nothing,
    }
}

/// What a key does.
pub fn key_effect(code: KeyCode, control: bool) -> (r: KeyEffect)
    ensures
        r == effect_of(code, control),
{
    match code {
        KeyCode::Enter => KeyEffect::Submit,
        KeyCode::Backspace => KeyEffect::Backspace,
        KeyCode::Delete => KeyEffect::Delete,
        KeyCode::Left => KeyEffect::Left,
        KeyCode::Right => KeyEffect::Right,
        KeyCode::Home => KeyEffect::Home,
        KeyCode::End => KeyEffect::End,
        KeyCode::Up => KeyEffect::Scroll(ScrollDelta::Rows(-1)),
        KeyCode::Down => KeyEffect::Scroll(ScrollDelta::Rows(1)),
        KeyCode::PageUp => KeyEffect::Scroll(ScrollDelta::Pages(-1)),
        KeyCode::PageDown => KeyEffect::Scroll(ScrollDelta::Pages(1)),
        KeyCode::Char(c) => if c == '\r' || c == '\n' {
            KeyEffect::Submit
        } else if !control {
            if char_is_control(c) {
                KeyEffect::Nothing
            } else {
                KeyEffect::Type(c)
            }
        } else if c == 'c' || c == 'd' {
            KeyEffect::Quit
        } else if c == 'a' {
            KeyEffect::Home
        } else if c == 'b' {
            KeyEffect::Left
        } else if c == 'e' {
            KeyEffect::End
        } else if c == 'f' {
            KeyEffect::Right
        } else if c == 'w' {
            KeyEffect::KillWord
        } else if c == 'u' {
            KeyEffect::KillHead
        } else if c == 'k' {
            KeyEffect::KillTail
        } else {
            KeyEffect::Nothing
        },
        KeyCode::Other => KeyEffect::Nothing,
    }
}

/// How far a batch of events has come.
#[verifier::ext_equal]
pub struct InputProgress {
    pub draft: DraftView,
    pub actions: Seq<ActionView>,
    pub redraw: ReplyRedraw,
    pub quit: bool,
}

/// An edit asks for the input row to be drawn again, unless more is asked for already.
pub open spec fn with_input(redraw: ReplyRedraw) -> ReplyRedraw {
    if redraw == ReplyRedraw::Nothing {
        ReplyRedraw::Input
    } else {
        redraw
    }
}

impl InputProgress {
    /// The line changed.
    pub open spec fn edited(self, draft: DraftView) -> InputProgress {
        InputProgress { draft, redraw: with_input(self.redraw), ..self }
    }

    /// Something was asked for.
    pub open spec fn asked(self, action: ActionView) -> InputProgress {
        InputProgress { actions: self.actions.push(action), ..self }
    }

    /// A key was pressed.
    pub open spec fn after_effect(self, effect: KeyEffect) -> InputProgress {
        let d = self.draft;
        match effect {
            KeyEffect::Quit => InputProgress { quit: true, ..self.asked(ActionView::Quit) },
            KeyEffect::Submit => self.asked(ActionView::Submit(d.text)).edited(
                (DraftView { text: Seq::empty(), cursor: 0 }),
            ),
            KeyEffect::Backspace => self.edited(d.backspaced()),
            KeyEffect::Delete => self.edited(d.deleted()),
            KeyEffect::Left => self.edited(d.moved_to(d.cursor - 1)),
            KeyEffect::Right => self.edited(d.moved_to(d.cursor + 1)),
            KeyEffect::Home => self.edited(d.moved_to(0)),
            KeyEffect::End => self.edited(d.moved_to(d.text.len() as int)),
            KeyEffect::KillWord => self.edited(d.without_word()),
            KeyEffect::KillHead => self.edited(d.without_head()),
            KeyEffect::KillTail => self.edited(d.without_tail()),
            KeyEffect::Type(c) => self.edited(d.typed(c)),
            KeyEffect::Scroll(delta) => self.asked(ActionView::Scroll(delta)),
            KeyEffect::Nothing => self,
        }
    }

    /// An event arrived. A resize asks for everything to be drawn again; a paste is insertion
    /// only; a key that is let go does nothing.
    pub open spec fn after_event(self, event: EventView) -> InputProgress {
        match event {
            EventView::Resize => InputProgress { redraw: ReplyRedraw::Full, ..self },
            EventView::Paste(text) => self.edited(self.draft.pasted(text)),
            EventView::Key(key) => if key.release {
                self
            } else {
                self.after_effect(effect_of(key.code, key.control))
            },
            EventView::Other => self,
        }
    }

    /// Events arrived, in this order. What comes behind a quit is dropped.
    pub open spec fn after_events(self, events: Seq<EventView>) -> InputProgress
        decreases events.len(),
    {
        if events.len() == 0 {
            self
        } else {
            let before = self.after_events(events.drop_last());
            if before.quit {
                before
            } else {
                before.after_event(events.last())
            }
        }
    }
}

/// A batch that starts with this line.
pub open spec fn fresh_batch(draft: DraftView) -> InputProgress {
    InputProgress { draft, actions: Seq::empty(), redraw: ReplyRedraw::Nothing, quit: false }
}

/// Applies decoded terminal events without any terminal I/O.
///
/// One batch means that a rapid burst of keys is drawn only once. A paste is a path of its own:
/// line breaks inside it are text, while a line break that arrives as a key submits.
pub fn apply_reply_input_events(state: &mut ReplyUiState, events: &Vec<InputEvent>) -> (batch:
    ReplyInputBatch)
    requires
        old(state).wf(),
    ensures
        final(state).wf(),
        final(state).same_conversation(old(state)),
        ({
            let end = fresh_batch(old(state).draft_view()).after_events(event_views(events@));
            &&& final(state).draft_view() == end.draft
            &&& action_views(batch.actions@) == end.actions
            &&& batch.redraw == end.redraw
        }),
{
    let ghost start = fresh_batch(state.draft_view());
    let ghost views = event_views(events@);
    let mut actions: Vec<ReplyTerminalAction> = Vec::new();
    let mut redraw: ReplyRedraw = ReplyRedraw::Nothing;
    let mut quit: bool = false;
    let mut i: usize = 0;
    assert(action_views(actions@) =~= Seq::<ActionView>::empty());
    while i < events.len() && !quit
        invariant
            i <= events.len(),
            views == event_views(events@),
            state.wf(),
            state.same_conversation(old(state)),
            state.draft_view() == start.after_events(views.take(i as int)).draft,
            action_views(actions@) == start.after_events(views.take(i as int)).actions,
            redraw == start.after_events(views.take(i as int)).redraw,
            quit == start.after_events(views.take(i as int)).quit,
        decreases events.len() - i,
    {
        let ghost before = start.after_events(views.take(i as int));
        let ghost asked = actions@;
        proof {
            assert(views.take(i + 1).drop_last() =~= views.take(i as int));
            assert(views.take(i + 1).last() == events@[i as int]@);
        }
        let mut edited: bool = false;
        match &events[i] {
            InputEvent::Resize => {
                redraw = ReplyRedraw::Full;
            },
            InputEvent::Paste(text) => {
                state.paste(text.as_str());
                edited = true;
            },
            InputEvent::Key(key) => {
                if !key.release {
                    let effect: KeyEffect = key_effect(key.code, key.control);
                    quit = effect == KeyEffect::Quit;
                    edited = apply_effect(state, effect, &mut actions, Ghost(before));
                }
            },
            InputEvent::Other => {},
        }
        if edited && redraw == ReplyRedraw::Nothing {
            redraw = ReplyRedraw::Input;
        }
        i = i + 1;
    }
    proof {
        if i < events.len() {
            lemma_nothing_after_quit(start, views, i as nat, views.len());
        }
        assert(views.take(views.len() as int) =~= views);
    }
    ReplyInputBatch { actions, redraw }
}

fn apply_effect(
    state: &mut ReplyUiState,
    effect: KeyEffect,
    actions: &mut Vec<ReplyTerminalAction>,
    Ghost(before): Ghost<InputProgress>,
) -> (edited: bool)
    requires
        old(state).wf(),
        before.draft == old(state).draft_view(),
        before.actions == action_views(old(actions)@),
    ensures
        final(state).wf(),
        final(state).same_conversation(old(state)),
        ({
            let after = before.after_effect(effect);
            &&& final(state).draft_view() == after.draft
            &&& action_views(final(actions)@) == after.actions
            &&& after.redraw == if edited {
                with_input(before.redraw)
            } else {
                before.redraw
            }
            &&& after.quit == (before.quit || effect == KeyEffect::Quit)
        }),
{
    let ghost asked = actions@;
    match effect {
        KeyEffect::Quit => {
            actions.push(ReplyTerminalAction::Quit);
            assert(action_views(actions@) =~= action_views(asked).push(ActionView::Quit));
            return false;
        },
        KeyEffect::Submit => {
            let line: String = state.take_draft();
            let ghost text = line@;
            actions.push(ReplyTerminalAction::Submit(line));
            assert(action_views(actions@) =~= action_views(asked).push(ActionView::Submit(text)));
            assert(state.draft_view().text =~= Seq::<char>::empty());
        },
        KeyEffect::Backspace => state.backspace(),
        KeyEffect::Delete => state.delete(),
        KeyEffect::Left => state.left(),
        KeyEffect::Right => state.right(),
        KeyEffect::Home => state.home(),
        KeyEffect::End => state.end(),
        KeyEffect::KillWord => state.ctrl_w(),
        KeyEffect::KillHead => state.ctrl_u(),
        KeyEffect::KillTail => state.ctrl_k(),
        KeyEffect::Type(c) => state.insert(c),
        KeyEffect::Scroll(delta) => {
            actions.push(ReplyTerminalAction::Scroll(delta));
            assert(action_views(actions@) =~= action_views(asked).push(ActionView::Scroll(delta)));
            return false;
        },
        KeyEffect::Nothing => {
            return false;
        },
    }
    true
}

proof fn lemma_nothing_after_quit(
    start: InputProgress,
    events: Seq<EventView>,
    i: nat,
    n: nat,
)
    requires
        i <= n <= events.len(),
        start.after_events(events.take(i as int)).quit,
    ensures
        start.after_events(events.take(n as int)) == start.after_events(events.take(i as int)),
    decreases n,
{
    if i < n {
        lemma_nothing_after_quit(start, events, i, (n - 1) as nat);
        assert(events.take(n as int).drop_last() =~= events.take(n - 1));
    }
}

/// Two batches one after the other do the same as one batch of both.
pub proof fn lemma_batches_compose(
    start: InputProgress,
    first: Seq<EventView>,
    second: Seq<EventView>,
)
    requires
        !start.after_events(first).quit,
    ensures
        start.after_events(first + second) == start.after_events(first).after_events(second),
    decreases second.len(),
{
    if second.len() == 0 {
        assert(first + second =~= first);
    } else {
        lemma_batches_compose(start, first, second.drop_last());
        assert((first + second).drop_last() =~= first + second.drop_last());
    }
}

/// A paste asks for nothing, whatever it holds: it cannot submit, scroll or quit.
pub proof fn lemma_paste_never_submits(progress: InputProgress, text: Seq<char>)
    ensures
        progress.after_event(EventView::Paste(text)).actions == progress.actions,
        progress.after_event(EventView::Paste(text)).quit == progress.quit,
{
}

/// A key that is let go changes nothing.
pub proof fn lemma_release_is_ignored(progress: InputProgress, key: KeyPress)
    requires
        key.release,
    ensures
        progress.after_event(EventView::Key(key)) == progress,
{
}

/// The line stays valid through any batch of events.
pub proof fn lemma_events_keep_line_valid(start: InputProgress, events: Seq<EventView>)
    requires
        start.draft.is_valid(),
    ensures
        start.after_events(events).draft.is_valid(),
    decreases events.len(),
{
    if events.len() > 0 {
        lemma_events_keep_line_valid(start, events.drop_last());
        let before = start.after_events(events.drop_last());
        if !before.quit {
            lemma_event_keeps_line_valid(before, events.last());
        }
    }
}

proof fn lemma_event_keeps_line_valid(progress: InputProgress, event: EventView)
    requires
        progress.draft.is_valid(),
    ensures
        progress.after_event(event).draft.is_valid(),
{
    let d = progress.draft;
    crate::draft::lemma_dropped_is_front(d.before());
    match event {
        EventView::Paste(text) => {
            crate::draft::lemma_paste_plain_text(text);
        },
        _ => {},
    }
}

/// A key pressed alone, on the line being typed.
pub open spec fn pressed(progress: InputProgress, code: KeyCode) -> InputProgress {
    progress.after_event(EventView::Key(KeyPress { code, control: false, release: false }))
}

/// A character typed while Control is held.
pub open spec fn with_control(progress: InputProgress, c: char) -> InputProgress {
    progress.after_event(
        EventView::Key(KeyPress { code: KeyCode::Char(c), control: true, release: false }),
    )
}

/// The keys that move the cursor: Left and Right by one character, as far as there is one, Home
/// and End to the two ends. They change no text and ask for nothing.
pub proof fn lemma_cursor_keys(progress: InputProgress)
    requires
        progress.draft.is_valid(),
    ensures
        ({
            let d = progress.draft;
            let left = pressed(progress, KeyCode::Left);
            let right = pressed(progress, KeyCode::Right);
            let home = pressed(progress, KeyCode::Home);
            let end = pressed(progress, KeyCode::End);
            &&& left.draft.text == d.text && right.draft.text == d.text
            &&& home.draft.text == d.text && end.draft.text == d.text
            &&& left.draft.cursor == if d.cursor > 0 {
                d.cursor - 1
            } else {
                0
            }
            &&& right.draft.cursor == if d.cursor < d.text.len() {
                d.cursor + 1
            } else {
                d.text.len() as int
            }
            &&& home.draft.cursor == 0
            &&& end.draft.cursor == d.text.len()
            &&& left.actions == progress.actions && right.actions == progress.actions
            &&& home.actions == progress.actions && end.actions == progress.actions
            &&& left.quit == progress.quit && right.quit == progress.quit
            &&& home.quit == progress.quit && end.quit == progress.quit
        }),
{
}

/// Left and Right undo each other wherever both can move, and Home and End come from anywhere.
pub proof fn lemma_left_and_right_undo_each_other(progress: InputProgress)
    requires
        progress.draft.is_valid(),
    ensures
        progress.draft.cursor < progress.draft.text.len() ==> pressed(
            pressed(progress, KeyCode::Right),
            KeyCode::Left,
        ).draft == progress.draft,
        progress.draft.cursor > 0 ==> pressed(
            pressed(progress, KeyCode::Left),
            KeyCode::Right,
        ).draft == progress.draft,
        pressed(pressed(progress, KeyCode::Home), KeyCode::End).draft == pressed(
            progress,
            KeyCode::End,
        ).draft,
        pressed(pressed(progress, KeyCode::End), KeyCode::Home).draft == pressed(
            progress,
            KeyCode::Home,
        ).draft,
{
}

/// Control with A, B, E or F does what Home, Left, End and Right do.
pub proof fn lemma_control_moves_like_arrows(progress: InputProgress)
    ensures
        with_control(progress, 'a') == pressed(progress, KeyCode::Home),
        with_control(progress, 'b') == pressed(progress, KeyCode::Left),
        with_control(progress, 'e') == pressed(progress, KeyCode::End),
        with_control(progress, 'f') == pressed(progress, KeyCode::Right),
{
}

/// The keys that delete: Backspace takes the character before the cursor, Delete the one behind
/// it, Control with U all before it and Control with K all behind it. The rest of the line stays.
pub proof fn lemma_deleting_keys(progress: InputProgress)
    requires
        progress.draft.is_valid(),
    ensures
        ({
            let d = progress.draft;
            let c = d.cursor;
            let n = d.text.len() as int;
            let backspace = pressed(progress, KeyCode::Backspace).draft;
            let delete = pressed(progress, KeyCode::Delete).draft;
            let head = with_control(progress, 'u').draft;
            let tail = with_control(progress, 'k').draft;
            &&& c > 0 ==> backspace.text == d.text.remove(c - 1) && backspace.cursor == c - 1
            &&& c == 0 ==> backspace == d
            &&& c < n ==> delete.text == d.text.remove(c) && delete.cursor == c
            &&& c == n ==> delete == d
            &&& head.text == d.text.skip(c) && head.cursor == 0
            &&& tail.text == d.text.take(c) && tail.cursor == c
        }),
{
    let d = progress.draft;
    let c = d.cursor;
    if c > 0 {
        assert(pressed(progress, KeyCode::Backspace).draft.text =~= d.text.remove(c - 1));
    }
    if c < d.text.len() {
        assert(pressed(progress, KeyCode::Delete).draft.text =~= d.text.remove(c));
    }
    assert(with_control(progress, 'u').draft.text =~= d.text.skip(c));
    assert(with_control(progress, 'k').draft.text =~= d.text.take(c));
}

/// Control with W takes what stands directly before the cursor: the white space there and the
/// word before that, up to the white space before the word. Nothing behind the cursor is touched.
pub proof fn lemma_control_w_takes_a_word(progress: InputProgress)
    requires
        progress.draft.is_valid(),
    ensures
        ({
            let d = progress.draft;
            let after = with_control(progress, 'w').draft;
            let from = after.cursor;
            &&& 0 <= from <= d.cursor
            &&& after.text == d.text.take(from) + d.text.skip(d.cursor)
            &&& from > 0 ==> is_white(d.text[from - 1]) && from < d.cursor && !is_white(d.text[from])
            &&& exists|end: int|
                {
                    &&& from <= end <= d.cursor
                    &&& #[trigger] is_word(d.text, from, end)
                    &&& forall|i: int| end <= i < d.cursor ==> is_white(#[trigger] d.text[i])
                }
        }),
{
    let d = progress.draft;
    let before = d.before();
    crate::draft::lemma_dropped_is_front(before);
    let end = crate::draft::drop_white(before).len() as int;
    let from = crate::draft::drop_word(crate::draft::drop_white(before)).len() as int;
    lemma_white_end(before);
    lemma_word_end(crate::draft::drop_white(before));
    let after = with_control(progress, 'w').draft;
    assert(after.cursor == from);
    assert(after.text =~= d.text.take(from) + d.text.skip(d.cursor));
    let kept = crate::draft::drop_white(before);
    let left = crate::draft::drop_word(kept);
    assert forall|i: int| 0 <= i < end implies d.text[i] == #[trigger] kept[i] by {
        assert(kept[i] == before[i]);
    }
    assert forall|i: int| from <= i < end implies !is_white(#[trigger] d.text[i]) by {
        assert(!is_white(kept[i]));
    }
    assert forall|i: int| end <= i < d.cursor implies is_white(#[trigger] d.text[i]) by {
        assert(is_white(before[i]));
    }
    if from > 0 {
        assert(left.last() == kept[from - 1]);
        assert(is_white(d.text[from - 1]));
        assert(kept.last() == kept[end - 1]);
        assert(from < end);
    }
    assert(is_word(d.text, from, end));
}

/// No character from `from` up to `end` is white space.
pub open spec fn is_word(s: Seq<char>, from: int, end: int) -> bool {
    forall|i: int| from <= i < end ==> !is_white(#[trigger] s[i])
}

proof fn lemma_white_end(s: Seq<char>)
    ensures
        ({
            let kept = crate::draft::drop_white(s);
            &&& kept.len() <= s.len()
            &&& kept == s.take(kept.len() as int)
            &&& kept.len() > 0 ==> !is_white(kept.last())
            &&& forall|i: int| kept.len() <= i < s.len() ==> is_white(#[trigger] s[i])
        }),
    decreases s.len(),
{
    if s.len() > 0 && is_white(s.last()) {
        lemma_white_end(s.drop_last());
        assert forall|i: int| crate::draft::drop_white(s).len() <= i < s.len() implies is_white(
            #[trigger] s[i],
        ) by {
            if i < s.len() - 1 {
                assert(is_white(s.drop_last()[i]));
            }
        }
        let kept = crate::draft::drop_white(s);
        assert(kept =~= s.take(kept.len() as int));
    } else {
        assert(s =~= s.take(s.len() as int));
    }
}

proof fn lemma_word_end(s: Seq<char>)
    ensures
        ({
            let kept = crate::draft::drop_word(s);
            &&& kept.len() <= s.len()
            &&& kept == s.take(kept.len() as int)
            &&& kept.len() > 0 ==> is_white(kept.last())
            &&& forall|i: int| kept.len() <= i < s.len() ==> !is_white(#[trigger] s[i])
        }),
    decreases s.len(),
{
    if s.len() > 0 && !is_white(s.last()) {
        lemma_word_end(s.drop_last());
        assert forall|i: int| crate::draft::drop_word(s).len() <= i < s.len() implies !is_white(
            #[trigger] s[i],
        ) by {
            if i < s.len() - 1 {
                assert(!is_white(s.drop_last()[i]));
            }
        }
        let kept = crate::draft::drop_word(s);
        assert(kept =~= s.take(kept.len() as int));
    } else {
        assert(s =~= s.take(s.len() as int));
    }
}

/// A character that is typed stands at the cursor, which moves behind it; nothing else changes.
/// Only control characters cannot be typed.
pub proof fn lemma_typing(progress: InputProgress, c: char)
    requires
        progress.draft.is_valid(),
        c != '\r',
        c != '\n',
    ensures
        ({
            let d = progress.draft;
            let after = pressed(progress, KeyCode::Char(c));
            &&& !is_control(c) ==> after.draft.text == d.text.insert(d.cursor, c)
                && after.draft.cursor == d.cursor + 1
            &&& is_control(c) ==> after.draft == d
            &&& after.actions == progress.actions
            &&& after.quit == progress.quit
        }),
{
    let d = progress.draft;
    if !is_control(c) {
        assert(pressed(progress, KeyCode::Char(c)).draft.text =~= d.text.insert(d.cursor, c));
    }
}

/// Enter, and a line break that arrives as a key, submits the whole line as it is and starts an
/// empty one. No other key submits.
pub proof fn lemma_only_line_breaks_submit(progress: InputProgress, key: KeyPress)
    ensures
        ({
            let after = progress.after_event(EventView::Key(key));
            let is_break = key.code == KeyCode::Enter || key.code == KeyCode::Char('\r') || key.code
                == KeyCode::Char('\n');
            &&& !key.release && is_break ==> after.actions == progress.actions.push(
                ActionView::Submit(progress.draft.text),
            ) && after.draft.text.len() == 0 && after.draft.cursor == 0 && after.quit
                == progress.quit
            &&& key.release || !is_break ==> after.actions == progress.actions || (
            after.actions.len() == progress.actions.len() + 1 && !(after.actions.last() is Submit))
        }),
{
}

/// Control with C or D asks to quit, and nothing else does.
pub proof fn lemma_only_control_c_and_d_quit(progress: InputProgress, key: KeyPress)
    requires
        !progress.quit,
    ensures
        ({
            let after = progress.after_event(EventView::Key(key));
            let quits = !key.release && key.control && (key.code == KeyCode::Char('c') || key.code
                == KeyCode::Char('d'));
            &&& after.quit == quits
            &&& quits ==> after.actions == progress.actions.push(ActionView::Quit) && after.draft
                == progress.draft
        }),
{
}

/// Up and Down scroll by a row, towards older and newer ones, PageUp and PageDown by a page; the
/// line stays as it is.
pub proof fn lemma_scrolling_keys(progress: InputProgress)
    ensures
        ({
            let up = pressed(progress, KeyCode::Up);
            let down = pressed(progress, KeyCode::Down);
            let page_up = pressed(progress, KeyCode::PageUp);
            let page_down = pressed(progress, KeyCode::PageDown);
            &&& up.actions.len() == progress.actions.len() + 1
            &&& up.actions.last() matches ActionView::Scroll(ScrollDelta::Rows(n)) && n == -1
            &&& down.actions.len() == progress.actions.len() + 1
            &&& down.actions.last() matches ActionView::Scroll(ScrollDelta::Rows(n)) && n == 1
            &&& page_up.actions.len() == progress.actions.len() + 1
            &&& page_up.actions.last() matches ActionView::Scroll(ScrollDelta::Pages(n)) && n == -1
            &&& page_down.actions.len() == progress.actions.len() + 1
            &&& page_down.actions.last() matches ActionView::Scroll(ScrollDelta::Pages(n)) && n == 1
            &&& up.draft == progress.draft && down.draft == progress.draft
            &&& page_up.draft == progress.draft && page_down.draft == progress.draft
        }),
{
}

/// What has to be drawn again: a change of size asks for everything, a change of the line at least
/// for the input, and what was asked for before is never taken back.
pub proof fn lemma_redraw_shows_every_change(progress: InputProgress, event: EventView)
    ensures
        ({
            let after = progress.after_event(event);
            &&& event is Resize ==> after.redraw == ReplyRedraw::Full
            &&& after.draft != progress.draft ==> after.redraw != ReplyRedraw::Nothing
            &&& progress.redraw == ReplyRedraw::Full ==> after.redraw == ReplyRedraw::Full
            &&& progress.redraw == ReplyRedraw::Input ==> after.redraw != ReplyRedraw::Nothing
            &&& after.redraw == ReplyRedraw::Full ==> progress.redraw == ReplyRedraw::Full || event
                is Resize
        }),
{
}

/// A paste puts its text in at the cursor: every character but control characters, with a space
/// for each line break, and the cursor behind it.
pub proof fn lemma_paste_inserts_text(progress: InputProgress, text: Seq<char>)
    requires
        progress.draft.is_valid(),
    ensures
        ({
            let d = progress.draft;
            let after = progress.after_event(EventView::Paste(text)).draft;
            let put = after.cursor - d.cursor;
            &&& put >= 0
            &&& after.text == d.text.take(d.cursor) + after.text.subrange(d.cursor, after.cursor)
                + d.text.skip(d.cursor)
            &&& (forall|i: int| 0 <= i < text.len() ==> !is_control(#[trigger] text[i]))
                ==> after.text.subrange(d.cursor, after.cursor) == text
        }),
{
    let d = progress.draft;
    let after = progress.after_event(EventView::Paste(text)).draft;
    crate::draft::lemma_paste_plain_text(text);
    let put = crate::draft::pasteable(text);
    assert(after.text.subrange(d.cursor, after.cursor) =~= put);
    assert(after.text =~= d.text.take(d.cursor) + put + d.text.skip(d.cursor));
}

/// Nothing behind a quit counts, and an event of another kind changes nothing.
pub proof fn lemma_quit_ends_a_batch(start: InputProgress, first: Seq<EventView>, more: EventView)
    ensures
        start.after_events(first).quit ==> start.after_events(first.push(more))
            == start.after_events(first),
        !start.after_events(first).quit ==> start.after_events(first.push(more))
            == start.after_events(first).after_event(more),
        start.after_event(EventView::Other) == start,
        start.after_events(Seq::empty()) == start,
{
    assert(first.push(more).drop_last() =~= first);
}

/// A burst is taken as it is from 256 events or eight milliseconds on; before that the next event
/// is waited for two milliseconds at most, and never beyond the eighth.
pub proof fn lemma_bursts_end(events: usize, nanos_spent: u128, r: Option<u128>)
    requires
        call_ensures(burst_wait, (events, nanos_spent), r),
    ensures
        r is Some <==> events < 256 && nanos_spent < 8_000_000,
        r is Some ==> 0 < r->0 <= 2_000_000 && nanos_spent + r->0 <= 8_000_000,
        r is Some && nanos_spent <= 6_000_000 ==> r->0 == 2_000_000,
{
}

/// Each key of the keyboard has the effect that it is named after, with and without the control
/// key for the keys that have no letter.
pub proof fn lemma_named_keys_do_what_they_say(
    left: KeyEffect,
    right: KeyEffect,
    home: KeyEffect,
    end: KeyEffect,
    backspace: KeyEffect,
    delete: KeyEffect,
)
    requires
        call_ensures(key_effect, (KeyCode::Left, false), left),
        call_ensures(key_effect, (KeyCode::Right, false), right),
        call_ensures(key_effect, (KeyCode::Home, false), home),
        call_ensures(key_effect, (KeyCode::End, false), end),
        call_ensures(key_effect, (KeyCode::Backspace, false), backspace),
        call_ensures(key_effect, (KeyCode::Delete, false), delete),
    ensures
        left == KeyEffect::Left,
        right == KeyEffect::Right,
        home == KeyEffect::Home,
        end == KeyEffect::End,
        backspace == KeyEffect::Backspace,
        delete == KeyEffect::Delete,
{
}

} // verus!
