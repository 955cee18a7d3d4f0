//! Which rows of the terminal have to be drawn again, and how.
use crate::draft::{input_column, input_row, usable_columns, ReplyInputFrame};
use crate::layout::{row_views, ReplyRow, RowStyle, RowView};
use crate::reply_ui::{
    conversation_height, conversation_rows, settled_top, ReplyFrame, ReplyUiState, FIXED_ROWS,
    REPLY_FOOTER,
};
use crate::text::same_text;
use crate::width::{display_front, repeated};
use vstd::prelude::*;

verus! {

/// A row without text.
pub open spec fn empty_row() -> RowView {
    RowView { text: Seq::empty(), style: RowStyle::Plain }
}

/// The first `n` rows of a list, filled up with empty ones.
pub open spec fn filled(rows: Seq<RowView>, n: nat) -> Seq<RowView> {
    Seq::new(
        n,
        |i: int|
            if i < rows.len() {
                rows[i]
            } else {
                empty_row()
            },
    )
}

/// All rows of the terminal: the conversation, the separator, the input and the footer.
pub open spec fn screen_rows(
    conversation: Seq<RowView>,
    separator: Seq<char>,
    input: Seq<char>,
    footer: Seq<char>,
    terminal_height: u16,
) -> Seq<RowView> {
    filled(conversation, conversation_height(terminal_height)) + seq![
        RowView { text: separator, style: RowStyle::Dim },
        RowView { text: input, style: RowStyle::Plain },
        RowView { text: footer, style: RowStyle::Dim },
    ]
}

/// All rows that a terminal of the given size shows of a state.
pub open spec fn surface_rows(ui: ReplyUiState, width: u16, height: u16) -> Seq<RowView> {
    let columns = usable_columns(width);
    screen_rows(
        conversation_rows(ui.history(), ui.top(), ui.unread(), columns, height),
        repeated('─', columns),
        input_row(ui.draft_view(), columns),
        display_front(REPLY_FOOTER@, columns),
        height,
    )
}

fn assemble(frame: ReplyFrame, terminal_height: u16) -> (rows: Vec<ReplyRow>)
    ensures
        row_views(rows@) == screen_rows(
            row_views(frame.conversation@),
            frame.separator@,
            frame.input@,
            frame.footer@,
            terminal_height,
        ),
        rows@.len() == conversation_height(terminal_height) + FIXED_ROWS,
{
    let height: usize = terminal_height.saturating_sub(FIXED_ROWS) as usize;
    let mut rows: Vec<ReplyRow> = Vec::new();
    for i in 0..height
        invariant
            rows.len() == i,
            forall|j: int|
                0 <= j < i ==> (#[trigger] rows@[j])@ == if j < frame.conversation@.len() {
                    frame.conversation@[j]@
                } else {
                    empty_row()
                },
    {
        if i < frame.conversation.len() {
            rows.push(frame.conversation[i].clone());
        } else {
            let row: ReplyRow = ReplyRow { text: String::new(), style: RowStyle::Plain };
            assert(row@.text =~= Seq::<char>::empty());
            rows.push(row);
        }
    }
    let ghost above = rows@;
    let separator: ReplyRow = ReplyRow { text: frame.separator, style: RowStyle::Dim };
    let input: ReplyRow = ReplyRow { text: frame.input, style: RowStyle::Plain };
    let footer: ReplyRow = ReplyRow { text: frame.footer, style: RowStyle::Dim };
    let ghost below = seq![separator@, input@, footer@];
    rows.push(separator);
    rows.push(input);
    rows.push(footer);
    proof {
        assert(row_views(above) =~= filled(row_views(frame.conversation@), height as nat));
        assert(row_views(rows@) =~= row_views(above) + below);
    }
    rows
}

/// Whether a row has to be drawn: there was none in its place, or another.
pub fn reply_row_changed(previous: Option<&ReplyRow>, row: &ReplyRow) -> (r: bool)
    ensures
        r == (previous is None || previous->0@ != row@),
{
    match previous {
        None => true,
        Some(shown) => {
            let same: bool = same_text(shown.text.as_str(), row.text.as_str()) && shown.style
                == row.style;
            !same
        },
    }
}

/// A row to draw and where.
#[derive(Debug, PartialEq, Eq)]
pub struct DrawnRow {
    pub row: u16,
    pub content: ReplyRow,
}

/// What to draw.
#[derive(Debug)]
pub struct RenderPlan {
    pub clear_all: bool,
    pub drawn: Vec<DrawnRow>,
    pub cleared: Vec<u16>,
    pub cursor_column: u16,
    pub cursor_row: u16,
}

/// What to draw when only the input changed.
#[derive(Debug)]
pub struct InputPlan {
    pub text: Option<String>,
    pub cursor_column: u16,
    pub cursor_row: u16,
}

/// Row `i` is not what the terminal shows there.
pub open spec fn is_dirty(shown: Seq<RowView>, rows: Seq<RowView>, all: bool, i: int) -> bool {
    all || i >= shown.len() || shown[i] != rows[i]
}

/// The first `n` rows, of which only those that changed.
pub open spec fn dirty_rows(
    shown: Seq<RowView>,
    rows: Seq<RowView>,
    all: bool,
    n: nat,
) -> Seq<(int, RowView)>
    decreases n,
{
    if n == 0 {
        Seq::empty()
    } else {
        let front = dirty_rows(shown, rows, all, (n - 1) as nat);
        if is_dirty(shown, rows, all, n - 1) {
            front.push((n - 1, rows[n - 1]))
        } else {
            front
        }
    }
}

/// The rows that a plan draws.
pub open spec fn drawn_views(drawn: Seq<DrawnRow>) -> Seq<(int, RowView)> {
    drawn.map_values(|d: DrawnRow| (d.row as int, d.content@))
}

/// The cursor stays on the terminal.
pub open spec fn cursor_on(column: nat, width: u16) -> nat {
    let last = if width >= 1 {
        (width - 1) as nat
    } else {
        0
    };
    if column <= last {
        column
    } else {
        last
    }
}

/// The row of the input: the last but one.
pub open spec fn input_line(height: u16) -> nat {
    if height >= 2 {
        (height - 2) as nat
    } else {
        0
    }
}

/// What a terminal shows, and whether that can be trusted.
#[derive(Debug)]
pub struct Screen {
    shown: Vec<ReplyRow>,
    invalid: bool,
    width: u16,
    height: u16,
}

impl Screen {
    /// The rows that were drawn last.
    pub closed spec fn rows(&self) -> Seq<RowView> {
        row_views(self.shown@)
    }

    /// Everything has to be drawn again.
    pub closed spec fn is_invalid(&self) -> bool {
        self.invalid
    }

    /// The columns of the terminal when it was drawn last.
    pub closed spec fn columns(&self) -> u16 {
        self.width
    }

    /// The rows of the terminal when it was drawn last.
    pub closed spec fn lines(&self) -> u16 {
        self.height
    }

    /// No more rows than a terminal can have.
    pub closed spec fn wf(&self) -> bool {
        self.shown@.len() <= 0xffff
    }

    /// A screen of which nothing is known yet.
    pub fn new() -> (r: Self)
        ensures
            r.wf(),
            r.is_invalid(),
            r.rows().len() == 0,
            r.columns() == 0,
            r.lines() == 0,
    {
        Screen { shown: Vec::new(), invalid: true, width: 0, height: 0 }
    }

    /// Says that everything has to be drawn again.
    pub fn invalidate(&mut self)
        requires
            old(self).wf(),
        ensures
            final(self).wf(),
            final(self).is_invalid(),
            final(self).rows() == old(self).rows(),
            final(self).columns() == old(self).columns(),
            final(self).lines() == old(self).lines(),
    {
        self.invalid = true;
    }

    /// The rows of the terminal when it was drawn last.
    pub fn terminal_height(&self) -> (r: u16)
        ensures
            r == self.lines(),
    {
        self.height
    }

    /// The terminal has another size than when it was drawn last.
    pub open spec fn resized(&self, width: u16, height: u16) -> bool {
        self.columns() != width || self.lines() != height
    }

    /// Lays the state out and says what to draw: the rows that changed, or all of them where
    /// nothing can be trusted, then the rows that are there no more.
    pub fn render(&mut self, ui: &mut ReplyUiState, width: u16, height: u16) -> (plan: RenderPlan)
        requires
            old(self).wf(),
            old(ui).wf(),
        ensures
            final(self).wf(),
            final(ui).wf(),
            final(ui).history() == old(ui).history(),
            final(ui).draft_view() == old(ui).draft_view(),
            final(ui).unread() == old(ui).unread(),
            final(ui).top() == settled_top(
                old(ui).history(),
                old(ui).top(),
                old(ui).unread(),
                usable_columns(width),
                height,
            ),
            final(ui).layout() == Some(usable_columns(width)),
            final(self).rows() == surface_rows(*old(ui), width, height),
            !final(self).is_invalid(),
            final(self).columns() == width,
            final(self).lines() == height,
            plan.clear_all == (old(self).is_invalid() || old(self).resized(width, height)),
            drawn_views(plan.drawn@) == dirty_rows(
                old(self).rows(),
                final(self).rows(),
                plan.clear_all,
                final(self).rows().len(),
            ),
            plan.cleared@.len() == if old(self).rows().len() > final(self).rows().len() {
                old(self).rows().len() - final(self).rows().len()
            } else {
                0
            },
            forall|k: int|
                0 <= k < plan.cleared@.len() ==> (#[trigger] plan.cleared@[k]) as int
                    == final(self).rows().len() + k,
            plan.cursor_column == cursor_on(
                input_column(old(ui).draft_view(), usable_columns(width)),
                width,
            ),
            plan.cursor_row == input_line(height),
    {
        if width != self.width || height != self.height {
            self.invalid = true;
            self.width = width;
            self.height = height;
        }
        let frame: ReplyFrame = ui.frame(width, height);
        let column: u16 = frame.cursor_column;
        let rows: Vec<ReplyRow> = assemble(frame, height);
        let ghost views = row_views(rows@);
        let ghost before = row_views(self.shown@);
        let all: bool = self.invalid;
        let mut drawn: Vec<DrawnRow> = Vec::new();
        assert(drawn_views(drawn@) =~= Seq::<(int, RowView)>::empty());
        for i in 0..rows.len()
            invariant
                rows.len() <= 0xffff,
                views == row_views(rows@),
                before == row_views(self.shown@),
                drawn_views(drawn@) == dirty_rows(before, views, all, i as nat),
        {
            let previous: Option<&ReplyRow> = if i < self.shown.len() {
                Some(&self.shown[i])
            } else {
                None
            };
            if all || reply_row_changed(previous, &rows[i]) {
                let ghost list = drawn@;
                let item: DrawnRow = DrawnRow { row: i as u16, content: rows[i].clone() };
                let ghost view = (item.row as int, item.content@);
                drawn.push(item);
                assert(drawn_views(drawn@) =~= drawn_views(list).push(view));
            }
        }
        let mut cleared: Vec<u16> = Vec::new();
        let mut index: usize = rows.len();
        while index < self.shown.len()
            invariant
                self.shown@.len() <= 0xffff,
                rows.len() <= index,
                rows.len() <= self.shown@.len() ==> index <= self.shown@.len(),
                rows.len() > self.shown@.len() ==> index == rows.len(),
                cleared.len() == index - rows.len(),
                forall|k: int|
                    0 <= k < cleared@.len() ==> (#[trigger] cleared@[k]) as int == rows.len() + k,
            decreases self.shown.len() - index,
        {
            cleared.push(index as u16);
            index = index + 1;
        }
        self.shown = rows;
        self.invalid = false;
        let last: u16 = width.saturating_sub(1);
        RenderPlan {
            clear_all: all,
            drawn,
            cleared,
            cursor_column: if column <= last {
                column
            } else {
                last
            },
            cursor_row: height.saturating_sub(2),
        }
    }

    /// Says what to draw when only the input may have changed; nothing where the terminal has
    /// another size, which asks for all of it to be drawn.
    pub fn render_input(&mut self, ui: &ReplyUiState, width: u16, height: u16) -> (plan: Option<
        InputPlan,
    >)
        requires
            old(self).wf(),
            ui.wf(),
        ensures
            final(self).wf(),
            final(self).columns() == old(self).columns(),
            final(self).lines() == old(self).lines(),
            plan is None <==> old(self).resized(width, height),
            final(self).is_invalid() == (old(self).is_invalid() || plan is None),
            plan is None ==> final(self).rows() == old(self).rows(),
            plan is Some ==> ({
                let input = input_row(ui.draft_view(), usable_columns(width));
                let at = input_line(height) as int;
                let rows = old(self).rows();
                let stale = at >= rows.len() || rows[at].text != input;
                &&& crate::types::optional_text(plan->0.text) == if stale {
                    Some(input)
                } else {
                    None
                }
                &&& plan->0.cursor_column == cursor_on(
                    input_column(ui.draft_view(), usable_columns(width)),
                    width,
                )
                &&& plan->0.cursor_row == at
                &&& final(self).rows() == if stale && at < rows.len() {
                    rows.update(at, RowView { text: input, style: RowStyle::Plain })
                } else {
                    rows
                }
            }),
    {
        if width != self.width || height != self.height {
            self.invalid = true;
            return None;
        }
        let frame: ReplyInputFrame = ui.input_frame(width);
        let row: u16 = height.saturating_sub(2);
        let at: usize = row as usize;
        let changed: bool = if at < self.shown.len() {
            !same_text(self.shown[at].text.as_str(), frame.input.as_str())
        } else {
            true
        };
        let last: u16 = width.saturating_sub(1);
        let cursor_column: u16 = if frame.cursor_column <= last {
            frame.cursor_column
        } else {
            last
        };
        let ghost before = self.shown@;
        let text: Option<String> = if changed {
            if at < self.shown.len() {
                let item: ReplyRow = ReplyRow {
                    text: frame.input.clone(),
                    style: RowStyle::Plain,
                };
                let ghost view = item@;
                self.shown.set(at, item);
                assert(row_views(self.shown@) =~= row_views(before).update(at as int, view));
            }
            Some(frame.input)
        } else {
            None
        };
        Some(InputPlan { text, cursor_column, cursor_row: row })
    }
}

/// A plan misses nothing: a row that it does not draw is already there as it should be.
pub proof fn lemma_plan_misses_nothing(
    shown: Seq<RowView>,
    rows: Seq<RowView>,
    all: bool,
    n: nat,
    i: int,
)
    requires
        0 <= i < n <= rows.len(),
    ensures
        dirty_rows(shown, rows, all, n).contains((i, rows[i])) || (i < shown.len() && shown[i]
            == rows[i]),
    decreases n,
{
    let list = dirty_rows(shown, rows, all, n);
    if i == n - 1 {
        if is_dirty(shown, rows, all, i) {
            assert(list.last() == (i, rows[i]));
            assert(list[list.len() - 1] == (i, rows[i]));
        }
    } else {
        lemma_plan_misses_nothing(shown, rows, all, (n - 1) as nat, i);
        let front = dirty_rows(shown, rows, all, (n - 1) as nat);
        if front.contains((i, rows[i])) {
            let k = choose|k: int| 0 <= k < front.len() && front[k] == (i, rows[i]);
            assert(list[k] == (i, rows[i]));
        }
    }
}

/// Drawing the same state again draws nothing.
pub proof fn lemma_same_rows_draw_nothing(rows: Seq<RowView>, n: nat)
    requires
        n <= rows.len(),
    ensures
        dirty_rows(rows, rows, false, n).len() == 0,
    decreases n,
{
    if n > 0 {
        lemma_same_rows_draw_nothing(rows, (n - 1) as nat);
    }
}

/// The surface always has as many rows as it needs for the separator, the input and the footer.
pub proof fn lemma_surface_height(ui: ReplyUiState, width: u16, height: u16)
    ensures
        surface_rows(ui, width, height).len() == conversation_height(height) + FIXED_ROWS,
        height >= FIXED_ROWS ==> surface_rows(ui, width, height).len() == height,
{
}

/// How a row is drawn.
#[derive(Debug, PartialEq, Eq)]
pub enum RowDrawing {
    Plain(String),
    Dim(String),
}

/// How a row is drawn: messages in the default foreground, without colours, and rules and status
/// lines dimmed.
pub fn draw_row(row: &ReplyRow) -> (r: RowDrawing)
    ensures
        match row.style {
            RowStyle::Plain => r matches RowDrawing::Plain(text) && text@ == row.text@,
            RowStyle::Dim => r matches RowDrawing::Dim(text) && text@ == row.text@,
            RowStyle::MessagePrefix { .. } => r matches RowDrawing::Plain(text) && text@
                == row.text@,
        },
{
    match row.style {
        RowStyle::Dim => RowDrawing::Dim(row.text.clone()),
        _ => RowDrawing::Plain(row.text.clone()),
    }
}

/// The screen stands in this order: the rows of the conversation from the top, empty rows up to
/// its height, and below it the rule, the line that is typed and the keys.
pub proof fn lemma_screen_from_top_to_bottom(
    conversation: Seq<RowView>,
    separator: Seq<char>,
    input: Seq<char>,
    footer: Seq<char>,
    terminal_height: u16,
)
    requires
        terminal_height >= 3,
        conversation.len() <= terminal_height - 3,
    ensures
        ({
            let rows = screen_rows(conversation, separator, input, footer, terminal_height);
            &&& rows.len() == terminal_height
            &&& rows.take(conversation.len() as int) == conversation
            &&& forall|i: int|
                conversation.len() <= i < terminal_height - 3 ==> (#[trigger] rows[i]).text.len()
                    == 0
            &&& rows[terminal_height - 3].text == separator
            &&& rows[terminal_height - 2].text == input
            &&& rows[terminal_height - 1].text == footer
            &&& rows[terminal_height - 3].style == RowStyle::Dim
            &&& rows[terminal_height - 2].style == RowStyle::Plain
            &&& rows[terminal_height - 1].style == RowStyle::Dim
        }),
{
    let rows = screen_rows(conversation, separator, input, footer, terminal_height);
    assert(rows.take(conversation.len() as int) =~= conversation);
}

/// A plan draws nothing needlessly: each row that it draws stands at its own place, is the row that
/// belongs there, and is not shown yet unless everything is drawn; no row is drawn twice.
pub proof fn lemma_plan_draws_only_changes(
    shown: Seq<RowView>,
    rows: Seq<RowView>,
    all: bool,
    n: nat,
)
    requires
        n <= rows.len(),
    ensures
        forall|k: int|
            0 <= k < dirty_rows(shown, rows, all, n).len() ==> {
                let (at, row) = #[trigger] dirty_rows(shown, rows, all, n)[k];
                &&& 0 <= at < n
                &&& row == rows[at]
                &&& all || at >= shown.len() || shown[at] != rows[at]
            },
        forall|a: int, b: int|
            0 <= a < b < dirty_rows(shown, rows, all, n).len() ==> (#[trigger] dirty_rows(
                shown,
                rows,
                all,
                n,
            )[a]).0 < (#[trigger] dirty_rows(shown, rows, all, n)[b]).0,
        all ==> dirty_rows(shown, rows, all, n).len() == n,
    decreases n,
{
    if n > 0 {
        lemma_plan_draws_only_changes(shown, rows, all, (n - 1) as nat);
        let list = dirty_rows(shown, rows, all, n);
        let front = dirty_rows(shown, rows, all, (n - 1) as nat);
        assert forall|k: int| 0 <= k < list.len() implies {
            let (at, row) = #[trigger] list[k];
            &&& 0 <= at < n
            &&& row == rows[at]
            &&& all || at >= shown.len() || shown[at] != rows[at]
        } by {
            if k < front.len() {
                assert(list[k] == front[k]);
            }
        }
        assert forall|a: int, b: int| 0 <= a < b < list.len() implies (#[trigger] list[a]).0 < (
        #[trigger] list[b]).0 by {
            assert(list[a] == front[a]);
            if b < front.len() {
                assert(list[b] == front[b]);
            }
        }
    }
}

/// The cursor stands on the terminal: at its own column where there is one, else in the last; and
/// in the last row but one.
pub proof fn lemma_cursor_stands_on_the_terminal(column: nat, width: u16, height: u16)
    ensures
        width > 0 ==> cursor_on(column, width) < width,
        column < width ==> cursor_on(column, width) == column,
        width > 0 && column >= width ==> cursor_on(column, width) == width - 1,
        height >= 2 ==> input_line(height) == height - 2,
        height < 2 ==> input_line(height) == 0,
{
}

/// The line that is typed is shown where the cursor stands.
pub proof fn lemma_cursor_row_shows_the_input(ui: ReplyUiState, width: u16, height: u16)
    requires
        height >= 3,
    ensures
        surface_rows(ui, width, height)[input_line(height) as int].text == input_row(
            ui.draft_view(),
            usable_columns(width),
        ),
        surface_rows(ui, width, height)[input_line(height) as int].style == RowStyle::Plain,
{
}

/// A row is drawn again exactly where none was there or its text or its style is another; it is
/// drawn as it reads, dimmed only where its style says so.
pub proof fn lemma_rows_are_drawn_as_they_read(
    shown: ReplyRow,
    row: ReplyRow,
    fresh: bool,
    changed: bool,
    drawing: RowDrawing,
)
    requires
        call_ensures(reply_row_changed, (None::<&ReplyRow>, &row), fresh),
        call_ensures(reply_row_changed, (Some(&shown), &row), changed),
        call_ensures(draw_row, (&row,), drawing),
    ensures
        fresh,
        changed <==> shown.text@ != row.text@ || shown.style != row.style,
        drawing is Dim <==> row.style == RowStyle::Dim,
        drawing is Dim ==> drawing->Dim_0@ == row.text@,
        drawing is Plain ==> drawing->Plain_0@ == row.text@,
{
}

} // verus!
