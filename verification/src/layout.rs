//! How a history entry becomes terminal rows.
use crate::text::{control_free, is_control, texts};
use crate::time::{clock_face, is_offset, Timestamp};
use crate::width::{
    centered_rule, char_columns, columns, pad_display, padded, repeat_char, repeated, ruled_label,
    run_together, text_columns, unicode_text_columns, wrap_display_line, wrapped, wrapped_line,
};
use vstd::prelude::*;
use vstd::utf8::encode_utf8;

verus! {

/// How a row is drawn.
#[derive(Debug, Clone, Copy, PartialEq, Eq, Structural)]
pub enum RowStyle {
    Plain,
    Dim,
    MessagePrefix { columns: u16, palette: u8 },
}

/// One row of the conversation.
#[derive(Debug, PartialEq, Eq)]
pub struct ReplyRow {
    pub text: String,
    pub style: RowStyle,
}

/// A row as text and style.
pub struct RowView {
    pub text: Seq<char>,
    pub style: RowStyle,
}

impl View for ReplyRow {
    type V = RowView;

    open spec fn view(&self) -> RowView {
        RowView { text: self.text@, style: self.style }
    }
}

impl Clone for ReplyRow {
    fn clone(&self) -> (r: Self)
        ensures
            r == *self,
    {
        ReplyRow { text: self.text.clone(), style: self.style }
    }
}

/// The rows of a list, as text and style.
pub open spec fn row_views(rows: Seq<ReplyRow>) -> Seq<RowView> {
    rows.map_values(|row: ReplyRow| row@)
}

/// A chat message in the conversation.
#[derive(Debug, PartialEq, Eq)]
pub struct ChatEntry {
    pub timestamp: Timestamp,
    pub sender: String,
    pub text: String,
}

impl Clone for ChatEntry {
    fn clone(&self) -> (r: Self)
        ensures
            r == *self,
    {
        ChatEntry {
            timestamp: self.timestamp,
            sender: self.sender.clone(),
            text: self.text.clone(),
        }
    }
}

/// What an entry of the history says.
pub enum EntryView {
    Chat { timestamp: Timestamp, offset: i32, sender: Seq<char>, text: Seq<char> },
    System { text: Seq<char> },
}

/// An entry with what its neighbour before it decides: whether it continues that message, and
/// the date above it where a new day starts.
pub struct StoredView {
    pub entry: EntryView,
    pub grouped: bool,
    pub day_separator: Option<Seq<char>>,
}

impl StoredView {
    /// Nothing in the entry can act on a terminal.
    pub open spec fn is_clean(self) -> bool {
        &&& match self.entry {
            EntryView::Chat { timestamp, offset, sender, text } => {
                is_offset(offset) && control_free(sender) && control_free(text)
            },
            EntryView::System { text } => control_free(text),
        }
        &&& self.day_separator is Some ==> control_free(self.day_separator->0)
    }
}

/// What `str::to_lowercase` returns for a text.
pub uninterp spec fn lowercased(s: Seq<char>) -> Seq<char>;

/// Calls `str::to_lowercase` of std. The result is named: it follows the Unicode tables.
#[verifier::external_body]
fn lowercase(s: &str) -> (r: String)
    ensures
        r@ == lowercased(s@),
{
    s.to_lowercase()
}

/// The 64-bit FNV-1a hash.
pub open spec fn fnv1a(bytes: Seq<u8>) -> u64
    decreases bytes.len(),
{
    if bytes.len() == 0 {
        0xcbf29ce484222325
    } else {
        (fnv1a(bytes.drop_last()) ^ (bytes.last() as u64)).wrapping_mul(0x100000001b3)
    }
}

/// The number of a sender out of eight, the same for every spelling that differs only in case.
pub open spec fn palette_of(sender: Seq<char>) -> u8 {
    (fnv1a(encode_utf8(lowercased(sender))) % 8) as u8
}

/// The number of a sender out of eight.
pub fn sender_palette(sender: &str) -> (r: u8)
    ensures
        r == palette_of(sender@),
        r < 8,
{
    let lower: String = lowercase(sender);
    let bytes: &[u8] = lower.as_str().as_bytes();
    let mut hash: u64 = 0xcbf29ce484222325;
    for i in 0..bytes.len()
        invariant
            hash == fnv1a(bytes@.take(i as int)),
    {
        assert(bytes@.take(i + 1).drop_last() =~= bytes@.take(i as int));
        hash = (hash ^ (bytes[i] as u64)).wrapping_mul(0x100000001b3);
    }
    assert(bytes@.take(bytes@.len() as int) =~= bytes@);
    (hash % 8) as u8
}

/// The columns of the sender field beside the clock.
pub open spec fn sender_columns(width: nat) -> nat {
    if width < 40 {
        width / 3
    } else {
        12
    }
}

/// What stands before the text of a message: the clock and the sender, or a dot where the
/// message continues the one before it.
pub open spec fn message_prefix(
    clock: Seq<char>,
    sender: Seq<char>,
    grouped: bool,
    width: nat,
) -> Seq<char> {
    if width < 24 {
        if grouped {
            clock + seq![' ', '·', ' ']
        } else {
            clock + seq![' '] + sender + seq![':', ' ']
        }
    } else {
        clock + seq![' '] + padded(
            if grouped {
                seq!['·']
            } else {
                sender
            },
            sender_columns(width),
        ) + seq![' ']
    }
}

/// How many columns of the first row are drawn as prefix: none where there is no sender field.
pub open spec fn prefix_columns(prefix: Seq<char>, width: nat) -> u16 {
    if width < 24 {
        0
    } else {
        unicode_text_columns(prefix) as u16
    }
}

/// Row `i` of a message: the first stands behind the prefix, the others are indented as far.
pub open spec fn message_row(
    prefix: Seq<char>,
    style: RowStyle,
    i: int,
    text: Seq<char>,
) -> RowView {
    if i == 0 {
        RowView { text: prefix + text, style }
    } else {
        RowView {
            text: repeated(' ', unicode_text_columns(prefix) as nat) + text,
            style: RowStyle::Plain,
        }
    }
}

/// The rows of a message behind a prefix. Where the prefix leaves no room, prefix and message
/// are wrapped as one line.
pub open spec fn prefixed_rows(
    prefix: Seq<char>,
    body: Seq<char>,
    width: nat,
    style: RowStyle,
) -> Seq<RowView> {
    let prefix_width = unicode_text_columns(prefix) as nat;
    if prefix_width >= width {
        wrapped_line(prefix + body, width).map_values(
            |text: Seq<char>| RowView { text, style: RowStyle::Plain },
        )
    } else {
        wrapped_line(body, (width - prefix_width) as nat).map(
            |i: int, text: Seq<char>| message_row(prefix, style, i, text),
        )
    }
}

/// The rows of a chat message.
pub open spec fn chat_rows(
    clock: Seq<char>,
    sender: Seq<char>,
    text: Seq<char>,
    grouped: bool,
    width: nat,
) -> Seq<RowView> {
    let prefix = message_prefix(clock, sender, grouped, width);
    prefixed_rows(
        prefix,
        text,
        width,
        RowStyle::MessagePrefix {
            columns: prefix_columns(prefix, width),
            palette: palette_of(sender),
        },
    )
}

/// The row of the date where a new day starts.
pub open spec fn separator_rows(day_separator: Option<Seq<char>>, width: nat) -> Seq<RowView> {
    match day_separator {
        Some(date) => seq![RowView { text: ruled_label(date, width), style: RowStyle::Dim }],
        None => Seq::empty(),
    }
}

/// The rows of what an entry says.
pub open spec fn content_rows(entry: EntryView, grouped: bool, width: nat) -> Seq<RowView> {
    match entry {
        EntryView::System { text } => wrapped_line(text, width).map_values(
            |text: Seq<char>| RowView { text, style: RowStyle::Dim },
        ),
        EntryView::Chat { timestamp, offset, sender, text } => chat_rows(
            clock_face(timestamp.unix_seconds() + offset),
            sender,
            text,
            grouped,
            width,
        ),
    }
}

/// The rows of a history entry.
pub open spec fn entry_rows(stored: StoredView, width: nat) -> Seq<RowView> {
    separator_rows(stored.day_separator, width) + content_rows(
        stored.entry,
        stored.grouped,
        width,
    )
}

fn plain_rows(texts_in: Vec<String>, style: RowStyle) -> (rows: Vec<ReplyRow>)
    ensures
        row_views(rows@) == texts(texts_in@).map_values(|text: Seq<char>| RowView { text, style }),
{
    let mut rows: Vec<ReplyRow> = Vec::new();
    for i in 0..texts_in.len()
        invariant
            rows.len() == i,
            forall|j: int| 0 <= j < i ==> (#[trigger] rows@[j])@ == (RowView {
                text: texts_in@[j]@,
                style,
            }),
    {
        rows.push(ReplyRow { text: texts_in[i].clone(), style });
    }
    assert(row_views(rows@) =~= texts(texts_in@).map_values(
        |text: Seq<char>| RowView { text, style },
    ));
    rows
}

/// The rows of a message behind a prefix.
pub fn wrap_prefixed(
    prefix: &str,
    body: &str,
    width: usize,
    columns: u16,
    palette: u8,
) -> (rows: Vec<ReplyRow>)
    ensures
        row_views(rows@) == prefixed_rows(
            prefix@,
            body@,
            width as nat,
            (RowStyle::MessagePrefix { columns, palette }),
        ),
{
    let style: RowStyle = RowStyle::MessagePrefix { columns, palette };
    let prefix_width: usize = text_columns(prefix);
    if prefix_width >= width {
        let mut line: String = prefix.to_owned();
        line.append(body);
        return plain_rows(wrap_display_line(line.as_str(), width), RowStyle::Plain);
    }
    let lines: Vec<String> = wrap_display_line(body, width - prefix_width);
    let mut rows: Vec<ReplyRow> = Vec::new();
    for i in 0..lines.len()
        invariant
            rows.len() == i,
            style == (RowStyle::MessagePrefix { columns, palette }),
            prefix_width == unicode_text_columns(prefix@),
            forall|j: int|
                0 <= j < i ==> (#[trigger] rows@[j])@ == message_row(
                    prefix@,
                    style,
                    j,
                    lines@[j]@,
                ),
    {
        if i == 0 {
            let mut text: String = prefix.to_owned();
            text.append(lines[i].as_str());
            rows.push(ReplyRow { text, style });
        } else {
            let mut text: String = repeat_char(' ', prefix_width);
            text.append(lines[i].as_str());
            rows.push(ReplyRow { text, style: RowStyle::Plain });
        }
    }
    assert(row_views(rows@) =~= texts(lines@).map(
        |i: int, text: Seq<char>| message_row(prefix@, style, i, text),
    ));
    rows
}

/// The rows of a chat message on a wall clock that is `offset` seconds ahead of UTC.
pub fn wrap_chat(chat: &ChatEntry, offset: i32, grouped: bool, width: usize) -> (rows: Vec<
    ReplyRow,
>)
    requires
        is_offset(offset),
    ensures
        row_views(rows@) == chat_rows(
            clock_face(chat.timestamp.unix_seconds() + offset),
            chat.sender@,
            chat.text@,
            grouped,
            width as nat,
        ),
{
    let mut prefix: String = chat.timestamp.local_clock(offset);
    let ghost clock = prefix@;
    let palette: u8 = sender_palette(chat.sender.as_str());
    prefix.push(' ');
    if width < 24 {
        if grouped {
            prefix.push('·');
            prefix.push(' ');
            assert(prefix@ =~= clock + seq![' ', '·', ' ']);
        } else {
            prefix.append(chat.sender.as_str());
            prefix.push(':');
            prefix.push(' ');
            assert(prefix@ =~= clock + seq![' '] + chat.sender@ + seq![':', ' ']);
        }
        return wrap_prefixed(prefix.as_str(), chat.text.as_str(), width, 0, palette);
    }
    let sender_width: usize = if width < 40 {
        width / 3
    } else {
        12
    };
    let field: String = if grouped {
        let mut dot: String = String::new();
        dot.push('·');
        assert(dot@ =~= seq!['·']);
        pad_display(dot.as_str(), sender_width)
    } else {
        pad_display(chat.sender.as_str(), sender_width)
    };
    prefix.append(field.as_str());
    prefix.push(' ');
    assert(prefix@ =~= clock + seq![' '] + field@ + seq![' ']);
    let columns: u16 = text_columns(prefix.as_str()) as u16;
    wrap_prefixed(prefix.as_str(), chat.text.as_str(), width, columns, palette)
}

/// The row of the date where a new day starts.
pub(crate) fn separator_row(day_separator: &Option<String>, width: usize) -> (rows: Vec<ReplyRow>)
    ensures
        row_views(rows@) == separator_rows(
            crate::types::optional_text(*day_separator),
            width as nat,
        ),
{
    let mut rows: Vec<ReplyRow> = Vec::new();
    match day_separator {
        Some(date) => {
            rows.push(
                ReplyRow { text: centered_rule(date.as_str(), width), style: RowStyle::Dim },
            );
        },
        None => {},
    }
    assert(row_views(rows@) =~= separator_rows(
        crate::types::optional_text(*day_separator),
        width as nat,
    ));
    rows
}

/// The rows of a status line.
pub(crate) fn system_rows(text: &str, width: usize) -> (rows: Vec<ReplyRow>)
    ensures
        row_views(rows@) == content_rows(EntryView::System { text: text@ }, false, width as nat),
{
    plain_rows(wrap_display_line(text, width), RowStyle::Dim)
}

proof fn lemma_wrapped_control_free(s: Seq<char>, width: nat)
    requires
        control_free(s),
    ensures
        forall|k: int|
            0 <= k < wrapped(s, width).len() ==> control_free(#[trigger] wrapped(s, width)[k]),
    decreases s.len(),
{
    if s.len() > 0 {
        lemma_wrapped_control_free(s.drop_last(), width);
        crate::width::lemma_wrapped_nonempty(s.drop_last(), width);
        let front = wrapped(s.drop_last(), width);
        assert(!is_control(s[s.len() - 1]));
        assert forall|k: int| 0 <= k < wrapped(s, width).len() implies control_free(
            #[trigger] wrapped(s, width)[k],
        ) by {
            if k < front.len() - 1 {
                assert(wrapped(s, width)[k] == front[k]);
            } else if k == front.len() - 1 {
                assert(control_free(front[k]));
            }
        }
    }
}

proof fn lemma_padded_control_free(value: Seq<char>, width: nat)
    requires
        control_free(value),
    ensures
        control_free(padded(value, width)),
{
    if width > 0 {
        crate::width::lemma_fit_count(value, (width - 1) as nat);
    }
}

/// A label in a rule is inert if the label is.
pub proof fn lemma_ruled_control_free(label: Seq<char>, width: nat)
    requires
        control_free(label),
    ensures
        control_free(ruled_label(label, width)),
{
    let wide = repeated(' ', 2) + label + repeated(' ', 2);
    assert(control_free(wide));
    crate::width::lemma_fit_count(wide, width);
}

proof fn lemma_clock_control_free(seconds: int)
    ensures
        control_free(clock_face(seconds)),
{
    let since_midnight = seconds % 86400;
    let h = since_midnight / 3600;
    let m = (since_midnight / 60) % 60;
    assert(0 <= h < 24);
    assert(0 <= m < 60);
    assert forall|i: int| 0 <= i < clock_face(seconds).len() implies !is_control(
        #[trigger] clock_face(seconds)[i],
    ) by {
        assert(clock_face(seconds) =~= seq![
            crate::digits::digit_char((h / 10) as nat),
            crate::digits::digit_char((h % 10) as nat),
            ':',
            crate::digits::digit_char((m / 10) as nat),
            crate::digits::digit_char((m % 10) as nat),
        ]);
    }
}

/// Every row of a clean entry is free of control characters: nothing in a chat can act on the
/// terminal that shows it.
pub proof fn lemma_rows_control_free(stored: StoredView, width: nat, k: int)
    requires
        stored.is_clean(),
        0 <= k < entry_rows(stored, width).len(),
    ensures
        control_free(entry_rows(stored, width)[k].text),
{
    let above = separator_rows(stored.day_separator, width);
    if k < above.len() {
        lemma_ruled_control_free(stored.day_separator->0, width);
    } else {
        let i = k - above.len();
        assert(entry_rows(stored, width)[k] == content_rows(
            stored.entry,
            stored.grouped,
            width,
        )[i]);
        match stored.entry {
            EntryView::System { text } => {
                lemma_wrapped_control_free(text, width);
            },
            EntryView::Chat { timestamp, offset, sender, text } => {
                let clock = clock_face(timestamp.unix_seconds() + offset);
                lemma_clock_control_free(timestamp.unix_seconds() + offset);
                let shown = if stored.grouped {
                    seq!['·']
                } else {
                    sender
                };
                lemma_padded_control_free(shown, sender_columns(width));
                let prefix = message_prefix(clock, sender, stored.grouped, width);
                assert(control_free(prefix));
                let prefix_width = unicode_text_columns(prefix) as nat;
                if prefix_width >= width {
                    assert(control_free(prefix + text));
                    lemma_wrapped_control_free(prefix + text, width);
                } else {
                    let room = (width - prefix_width) as nat;
                    lemma_wrapped_control_free(text, room);
                    assert(control_free(wrapped_line(text, room)[i]));
                }
            },
        }
    }
}

/// An entry always has a row.
pub proof fn lemma_entry_has_rows(stored: StoredView, width: nat)
    ensures
        entry_rows(stored, width).len() > 0,
{
    match stored.entry {
        EntryView::System { text } => {
            crate::width::lemma_wrapped_nonempty(text, width);
        },
        EntryView::Chat { timestamp, offset, sender, text } => {
            let clock = clock_face(timestamp.unix_seconds() + offset);
            let prefix = message_prefix(clock, sender, stored.grouped, width);
            let prefix_width = unicode_text_columns(prefix) as nat;
            crate::width::lemma_wrapped_nonempty(prefix + text, width);
            if prefix_width < width {
                crate::width::lemma_wrapped_nonempty(text, (width - prefix_width) as nat);
            }
        },
    }
}

/// The rows of a message behind a prefix hold its whole text. What stands behind the prefix in the
/// first row, and behind the indentation in the others, is the message when run together: every
/// character that fits in the room left, in its order.
pub proof fn lemma_message_rows_hold_the_text(
    prefix: Seq<char>,
    body: Seq<char>,
    width: nat,
    style: RowStyle,
)
    requires
        (unicode_text_columns(prefix) as nat) < width,
    ensures
        ({
            let rows = prefixed_rows(prefix, body, width, style);
            let indent = unicode_text_columns(prefix) as int;
            let room = (width - indent) as nat;
            exists|parts: Seq<Seq<char>>|
                {
                    &&& parts.len() == rows.len() > 0
                    &&& rows[0].text == prefix + parts[0]
                    &&& rows[0].style == style
                    &&& forall|k: int|
                        1 <= k < rows.len() ==> {
                            &&& (#[trigger] rows[k]).text.len() == indent + parts[k].len()
                            &&& rows[k].text.skip(indent) == parts[k]
                            &&& forall|i: int| 0 <= i < indent ==> rows[k].text[i] == ' '
                            &&& rows[k].style == RowStyle::Plain
                        }
                    &&& forall|k: int|
                        0 <= k < parts.len() ==> columns(#[trigger] parts[k]) <= room
                    &&& #[trigger] run_together(parts) == body.filter(
                        |c: char| char_columns(c) <= room,
                    )
                    &&& (forall|i: int|
                        0 <= i < body.len() ==> char_columns(#[trigger] body[i]) <= room)
                        ==> run_together(parts) == body
                }
        }),
{
    let rows = prefixed_rows(prefix, body, width, style);
    let indent = unicode_text_columns(prefix) as int;
    let room = (width - indent) as nat;
    let parts = wrapped_line(body, room);
    crate::width::lemma_wrapped_nonempty(body, room);
    crate::width::lemma_wrapping_loses_nothing(body, room);
    assert forall|k: int| 0 <= k < parts.len() implies columns(#[trigger] parts[k]) <= room by {
        crate::width::lemma_wrapped_fits(body, room, k);
    }
    assert forall|k: int| 1 <= k < rows.len() implies {
        &&& (#[trigger] rows[k]).text.len() == indent + parts[k].len()
        &&& rows[k].text.skip(indent) == parts[k]
        &&& forall|i: int| 0 <= i < indent ==> rows[k].text[i] == ' '
        &&& rows[k].style == RowStyle::Plain
    } by {
        assert(rows[k] == message_row(prefix, style, k, parts[k]));
        assert(rows[k].text.skip(indent) =~= parts[k]);
    }
    assert(rows[0] == message_row(prefix, style, 0, parts[0]));
    assert(run_together(parts) == body.filter(|c: char| char_columns(c) <= room));
}

/// Where the prefix leaves no room, prefix and message are shown as one text, of which nothing is
/// lost but characters that no row can hold.
pub proof fn lemma_narrow_message_rows_hold_the_text(
    prefix: Seq<char>,
    body: Seq<char>,
    width: nat,
    style: RowStyle,
)
    requires
        0 < width <= unicode_text_columns(prefix) as nat,
    ensures
        ({
            let rows = prefixed_rows(prefix, body, width, style);
            &&& run_together(rows.map_values(|row: RowView| row.text)) == (prefix + body).filter(
                |c: char| char_columns(c) <= width,
            )
            &&& forall|k: int| 0 <= k < rows.len() ==> columns((#[trigger] rows[k]).text) <= width
        }),
{
    let rows = prefixed_rows(prefix, body, width, style);
    let parts = wrapped_line(prefix + body, width);
    crate::width::lemma_wrapping_loses_nothing(prefix + body, width);
    assert(rows.map_values(|row: RowView| row.text) =~= parts);
    assert forall|k: int| 0 <= k < rows.len() implies columns((#[trigger] rows[k]).text)
        <= width by {
        crate::width::lemma_wrapped_fits(prefix + body, width, k);
    }
}

/// What stands before a message: the clock, a space, and then the sender or, for a message that
/// continues the one before it, a dot. From twenty-four columns on the sender has a field of a
/// third of the row, of twelve columns from forty on, and stands whole in it where it fits.
pub proof fn lemma_prefix_names_clock_and_sender(
    clock: Seq<char>,
    sender: Seq<char>,
    grouped: bool,
    width: nat,
)
    ensures
        ({
            let prefix = message_prefix(clock, sender, grouped, width);
            let who = if grouped {
                seq!['·']
            } else {
                sender
            };
            let field = if width < 40 {
                width / 3
            } else {
                12
            };
            let from = clock.len() + 1;
            &&& prefix.len() > clock.len()
            &&& prefix.take(clock.len() as int) == clock
            &&& prefix[clock.len() as int] == ' '
            &&& prefix.last() == ' '
            &&& width < 24 || unicode_text_columns(who) as nat <= field ==> prefix.len() >= from
                + who.len() && prefix.subrange(from as int, (from + who.len()) as int) == who
            &&& width >= 24 && unicode_text_columns(who) as nat <= field ==> prefix.len() == from
                + who.len() + (field - unicode_text_columns(who)) + 1
            &&& width < 24 && grouped ==> prefix.len() == from + 2
            &&& width < 24 && !grouped ==> prefix.len() == from + sender.len() + 2 && prefix[(from
                + sender.len()) as int] == ':'
        }),
{
    let prefix = message_prefix(clock, sender, grouped, width);
    let who = if grouped {
        seq!['·']
    } else {
        sender
    };
    let from = clock.len() + 1;
    assert(prefix.take(clock.len() as int) =~= clock);
    if width < 24 {
        assert(prefix.subrange(from as int, (from + who.len()) as int) =~= who);
    } else {
        let field = padded(who, sender_columns(width));
        assert(prefix =~= clock + seq![' '] + field + seq![' ']);
        if unicode_text_columns(who) as nat <= sender_columns(width) {
            crate::width::lemma_padded_keeps_the_value(who, sender_columns(width));
            assert(prefix.subrange(from as int, (from + who.len()) as int) =~= field.take(
                who.len() as int,
            ));
        }
    }
}

/// A chat message is drawn with its own clock, sender and text, and the number of its sender; a
/// status line as what it says; and a date above either is a row of its own.
pub proof fn lemma_entry_rows_say_what_the_entry_says(stored: StoredView, width: nat)
    requires
        width > 0,
    ensures
        ({
            let rows = entry_rows(stored, width);
            let above = if stored.day_separator is Some {
                1int
            } else {
                0int
            };
            let content = rows.skip(above);
            &&& rows.len() > above
            &&& stored.day_separator is Some ==> rows[0].style == RowStyle::Dim && rows[0].text
                == ruled_label(stored.day_separator->0, width)
            &&& match stored.entry {
                EntryView::System { text } => {
                    &&& run_together(content.map_values(|row: RowView| row.text)) == text.filter(
                        |c: char| char_columns(c) <= width,
                    )
                    &&& forall|k: int|
                        0 <= k < content.len() ==> (#[trigger] content[k]).style == RowStyle::Dim
                },
                EntryView::Chat { timestamp, offset, sender, text } => {
                    let prefix = message_prefix(
                        clock_face(timestamp.unix_seconds() + offset),
                        sender,
                        stored.grouped,
                        width,
                    );
                    content == prefixed_rows(
                        prefix,
                        text,
                        width,
                        RowStyle::MessagePrefix {
                            columns: prefix_columns(prefix, width),
                            palette: palette_of(sender),
                        },
                    )
                },
            }
        }),
{
    let rows = entry_rows(stored, width);
    let above = separator_rows(stored.day_separator, width);
    let content = content_rows(stored.entry, stored.grouped, width);
    assert(rows.skip(above.len() as int) =~= content);
    lemma_entry_has_rows(
        StoredView { entry: stored.entry, grouped: stored.grouped, day_separator: None },
        width,
    );
    assert(entry_rows(
        StoredView { entry: stored.entry, grouped: stored.grouped, day_separator: None },
        width,
    ) =~= content);
    if let EntryView::System { text } = stored.entry {
        crate::width::lemma_wrapping_loses_nothing(text, width);
        assert(content.map_values(|row: RowView| row.text) =~= wrapped_line(text, width));
    }
}

/// Senders whose names differ only in case have the same number, and there are eight numbers.
pub proof fn lemma_palette_ignores_case(a: Seq<char>, b: Seq<char>)
    ensures
        lowercased(a) == lowercased(b) ==> palette_of(a) == palette_of(b),
        palette_of(a) < 8,
        palette_of(a) as int == fnv1a(encode_utf8(lowercased(a))) as int % 8,
{
}

/// The rows of a chat message in the conversation hold the message: what stands in them behind the
/// prefix, or behind the indentation under it, is its text when run together, every character that
/// a row has room for and in its order.
pub proof fn lemma_chat_entry_holds_its_text(stored: StoredView, width: nat)
    requires
        stored.entry is Chat,
        stored.day_separator is None,
        (unicode_text_columns(
            message_prefix(
                clock_face(stored.entry->timestamp.unix_seconds() + stored.entry->offset),
                stored.entry->sender,
                stored.grouped,
                width,
            ),
        ) as nat) < width,
    ensures
        ({
            let rows = entry_rows(stored, width);
            let text = stored.entry->Chat_text;
            let prefix = message_prefix(
                clock_face(stored.entry->timestamp.unix_seconds() + stored.entry->offset),
                stored.entry->sender,
                stored.grouped,
                width,
            );
            let indent = unicode_text_columns(prefix) as int;
            let room = (width - indent) as nat;
            exists|parts: Seq<Seq<char>>|
                {
                    &&& parts.len() == rows.len() > 0
                    &&& rows[0].text == prefix + parts[0]
                    &&& forall|k: int|
                        1 <= k < rows.len() ==> (#[trigger] rows[k]).text.skip(indent) == parts[k]
                    &&& #[trigger] run_together(parts) == text.filter(
                        |c: char| char_columns(c) <= room,
                    )
                    &&& (forall|i: int|
                        0 <= i < text.len() ==> char_columns(#[trigger] text[i]) <= room)
                        ==> run_together(parts) == text
                }
        }),
{
    let rows = entry_rows(stored, width);
    let text = stored.entry->Chat_text;
    let sender = stored.entry->sender;
    let prefix = message_prefix(
        clock_face(stored.entry->timestamp.unix_seconds() + stored.entry->offset),
        sender,
        stored.grouped,
        width,
    );
    let style = RowStyle::MessagePrefix {
        columns: prefix_columns(prefix, width),
        palette: palette_of(sender),
    };
    lemma_entry_rows_say_what_the_entry_says(stored, width);
    assert(rows.skip(0) =~= rows);
    assert(rows == prefixed_rows(prefix, text, width, style));
    lemma_message_rows_hold_the_text(prefix, text, width, style);
}

proof fn lemma_hash_step_keeps_apart(x: u64, y: u64)
    requires
        x.wrapping_mul(0x100000001b3) == y.wrapping_mul(0x100000001b3),
    ensures
        x == y,
{
    let m: int = 0x1_0000_0000_0000_0000;
    let p: int = 0x100000001b3;
    let q: int = 14886173955864302971;
    let k: int = 887285111055;
    assert(p * q == 1 + k * m);
    assert((x * p) % m == (y * p) % m);
    let t = (x * p) / m - (y * p) / m;
    assert((x - y) * p == m * t);
    let d = x - y;
    assert(d * (p * q) == (d * p) * q) by (nonlinear_arith);
    assert(d == m * (t * q - d * k)) by (nonlinear_arith)
        requires
            d * (p * q) == (d * p) * q,
            d * p == m * t,
            p * q == 1 + k * m,
    ;
    let n = t * q - d * k;
    assert(n == 0) by (nonlinear_arith)
        requires
            d == m * n,
            m == 0x1_0000_0000_0000_0000,
            -0x1_0000_0000_0000_0000 < d < 0x1_0000_0000_0000_0000,
    ;
}

/// Every byte counts in a hash: byte strings of one length that differ in one place have different
/// hashes.
pub proof fn lemma_every_byte_counts_in_a_hash(a: Seq<u8>, x: u8, y: u8, b: Seq<u8>)
    ensures
        x != y ==> fnv1a(a.push(x) + b) != fnv1a(a.push(y) + b),
    decreases b.len(),
{
    if b.len() == 0 {
        assert(a.push(x) + b =~= a.push(x));
        assert(a.push(y) + b =~= a.push(y));
        assert(a.push(x).drop_last() =~= a);
        assert(a.push(y).drop_last() =~= a);
        let h = fnv1a(a);
        let c = x as u64;
        let d = y as u64;
        assert(h ^ c == h ^ d ==> c == d) by (bit_vector);
        if fnv1a(a.push(x)) == fnv1a(a.push(y)) {
            lemma_hash_step_keeps_apart(h ^ c, h ^ d);
        }
    } else {
        let front = b.drop_last();
        lemma_every_byte_counts_in_a_hash(a, x, y, front);
        let s = a.push(x) + b;
        let t = a.push(y) + b;
        assert(s.drop_last() =~= a.push(x) + front);
        assert(t.drop_last() =~= a.push(y) + front);
        assert(s.last() == b.last() && t.last() == b.last());
        let g = fnv1a(s.drop_last());
        let h = fnv1a(t.drop_last());
        let c = b.last() as u64;
        assert(g ^ c == h ^ c ==> g == h) by (bit_vector);
        if fnv1a(s) == fnv1a(t) {
            lemma_hash_step_keeps_apart(g ^ c, h ^ c);
        }
    }
}

} // verus!
