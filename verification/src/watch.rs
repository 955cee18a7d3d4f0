//! Watching a source: what a reply line asks for, and how messages are told to a person.
pub use crate::draft::{ReplyInputFrame, REPLY_PROMPT};
pub use crate::layout::{ChatEntry, ReplyRow, RowStyle};
pub use crate::reply_ui::{
    HistoryEntry, ReplyFrame, ReplyUiState, ScrollDelta, REPLY_HISTORY_LIMIT,
};
pub use crate::snapshot::{
    WatchEvent, WatchMessageChange, WatchSnapshot, WatchState, WATCH_EVENT_SCHEMA_VERSION,
};
pub use crate::text::sanitize_terminal_text;
pub use crate::width::wrap_display_line;

use crate::order::sorted_set;
use crate::text::{
    char_is_white, chars_of, control_free, is_blank, is_white, lemma_blank_is_all_white,
    lemma_trimmed_ends, lemma_trimmed_is_the_inner_part, sanitized, string_of, texts, trim, trimmed,
};
use crate::time::{is_rfc3339_char, rfc3339_seconds};
use crate::types::RawMessage;
use vstd::prelude::*;

verus! {

/// What a line typed below the conversation asks for.
#[derive(Debug, PartialEq, Eq)]
pub enum ReplyCommand {
    Send(String),
    Quit,
    Help,
    Empty,
    Ignored,
}

impl Clone for ReplyCommand {
    fn clone(&self) -> (r: Self)
        ensures
            r == *self,
    {
        match self {
            ReplyCommand::Send(text) => ReplyCommand::Send(text.clone()),
            ReplyCommand::Quit => ReplyCommand::Quit,
            ReplyCommand::Help => ReplyCommand::Help,
            ReplyCommand::Empty => ReplyCommand::Empty,
            ReplyCommand::Ignored => ReplyCommand::Ignored,
        }
    }
}

/// What a line asks for, with the text to send.
pub enum CommandView {
    Send(Seq<char>),
    Quit,
    Help,
    Empty,
    Ignored,
}

impl View for ReplyCommand {
    type V = CommandView;

    open spec fn view(&self) -> CommandView {
        match self {
            ReplyCommand::Send(text) => CommandView::Send(text@),
            ReplyCommand::Quit => CommandView::Quit,
            ReplyCommand::Help => CommandView::Help,
            ReplyCommand::Empty => CommandView::Empty,
            ReplyCommand::Ignored => CommandView::Ignored,
        }
    }
}

/// `s` starts with `front`.
pub open spec fn starts_with(s: Seq<char>, front: Seq<char>) -> bool {
    s.len() >= front.len() && s.take(front.len() as int) == front
}

/// What a line asks for. The end of the input quits; a line that does not start with a slash is
/// sent as it is.
pub open spec fn reply_command(bytes_read: usize, line: Seq<char>) -> CommandView {
    let text = trimmed(line);
    if bytes_read == 0 {
        CommandView::Quit
    } else if text.len() == 0 {
        CommandView::Empty
    } else if text == "/quit"@ || text == "/exit"@ || text == "/q"@ {
        CommandView::Quit
    } else if text == "/help"@ || text == "/?"@ {
        CommandView::Help
    } else if starts_with(text, "/send"@) {
        let rest = text.skip("/send"@.len() as int);
        if rest.len() == 0 {
            CommandView::Empty
        } else if !is_white(rest[0]) {
            CommandView::Ignored
        } else if trimmed(rest).len() == 0 {
            CommandView::Empty
        } else {
            CommandView::Send(trimmed(rest))
        }
    } else if text[0] == '/' {
        CommandView::Ignored
    } else {
        CommandView::Send(text)
    }
}

/// What a line asks for.
pub fn parse_reply_command(bytes_read: usize, line: &str) -> (r: ReplyCommand)
    ensures
        r@ == reply_command(bytes_read, line@),
{
    if bytes_read == 0 {
        return ReplyCommand::Quit;
    }
    let text: String = trim(line);
    let shown: &str = text.as_str();
    if shown.is_empty() {
        return ReplyCommand::Empty;
    }
    if crate::text::same_text(shown, "/quit") || crate::text::same_text(shown, "/exit")
        || crate::text::same_text(shown, "/q") {
        return ReplyCommand::Quit;
    }
    if crate::text::same_text(shown, "/help") || crate::text::same_text(shown, "/?") {
        return ReplyCommand::Help;
    }
    let chars: Vec<char> = chars_of(shown);
    proof {
        reveal_strlit("/send");
    }
    let send: bool = chars.len() >= 5 && chars[0] == '/' && chars[1] == 's' && chars[2] == 'e'
        && chars[3] == 'n' && chars[4] == 'd';
    proof {
        if send {
            assert(chars@.take(5) =~= "/send"@);
        } else if starts_with(chars@, "/send"@) {
            assert(chars@.take(5)[0] == "/send"@[0]);
            assert(chars@.take(5)[1] == "/send"@[1]);
            assert(chars@.take(5)[2] == "/send"@[2]);
            assert(chars@.take(5)[3] == "/send"@[3]);
            assert(chars@.take(5)[4] == "/send"@[4]);
        }
    }
    if send {
        let rest: &[char] = vstd::slice::slice_subrange(chars.as_slice(), 5, chars.len());
        assert(rest@ =~= chars@.skip(5));
        if rest.len() == 0 {
            return ReplyCommand::Empty;
        }
        if !char_is_white(rest[0]) {
            return ReplyCommand::Ignored;
        }
        let body: String = trim(string_of(rest).as_str());
        if body.as_str().is_empty() {
            return ReplyCommand::Empty;
        }
        return ReplyCommand::Send(body);
    }
    if chars[0] == '/' {
        return ReplyCommand::Ignored;
    }
    ReplyCommand::Send(text)
}

/// A text to send is never blank and has no white space at its ends.
pub proof fn lemma_sent_text_is_trimmed(bytes_read: usize, line: Seq<char>)
    ensures
        reply_command(bytes_read, line) matches CommandView::Send(text) ==> text.len() > 0
            && !is_white(text.first()) && !is_white(text.last()),
{
    lemma_trimmed_ends(line);
    lemma_trimmed_ends(trimmed(line).skip("/send"@.len() as int));
}

/// Only a slash command can do anything but send: any other line that is not blank is sent.
pub proof fn lemma_direct_lines_are_sent(bytes_read: usize, line: Seq<char>)
    requires
        bytes_read > 0,
        trimmed(line).len() > 0,
        trimmed(line)[0] != '/',
    ensures
        reply_command(bytes_read, line) == CommandView::Send(trimmed(line)),
{
    reveal_strlit("/quit");
    reveal_strlit("/exit");
    reveal_strlit("/q");
    reveal_strlit("/help");
    reveal_strlit("/?");
    reveal_strlit("/send");
    let text = trimmed(line);
    if starts_with(text, "/send"@) {
        assert(text.take(5)[0] == "/send"@[0]);
    }
}

/// The chats of the given messages.
pub open spec fn chats_of(messages: Seq<RawMessage>) -> Set<Seq<char>> {
    messages.map_values(|m: RawMessage| m.chat_id@).to_set()
}

/// How many chats the given messages come from.
pub fn chat_count(messages: &[RawMessage]) -> (r: usize)
    ensures
        r == chats_of(messages@).len(),
{
    let ghost ids = messages@.map_values(|m: RawMessage| m.chat_id@);
    let mut list: Vec<String> = Vec::new();
    for i in 0..messages.len()
        invariant
            list.len() == i,
            forall|j: int| 0 <= j < i ==> (#[trigger] list@[j])@ == messages@[j].chat_id@,
    {
        list.push(messages[i].chat_id.clone());
    }
    let distinct: Vec<String> = sorted_set(list.as_slice());
    proof {
        let sorted = texts(distinct@);
        assert(texts(list@) =~= ids);
        assert(sorted.no_duplicates());
        sorted.unique_seq_to_set();
        assert(sorted.to_set() =~= ids.to_set()) by {
            assert forall|t: Seq<char>| sorted.to_set().contains(t) == ids.to_set().contains(t) by {
                if sorted.contains(t) {
                    let k = choose|k: int| 0 <= k < sorted.len() && sorted[k] == t;
                    assert(ids.contains(sorted[k]));
                }
                if ids.contains(t) {
                    let i = choose|i: int| 0 <= i < ids.len() && ids[i] == t;
                    assert(sorted.contains(ids[i]));
                }
            }
        }
    }
    distinct.len()
}

/// A time in RFC 3339 as a person reads it: a space for the T, ` UTC` for the Z.
pub open spec fn readable_time(s: Seq<char>) -> Seq<char>
    decreases s.len(),
{
    if s.len() == 0 {
        Seq::empty()
    } else {
        let front = readable_time(s.drop_last());
        if s.last() == 'T' {
            front + " "@
        } else if s.last() == 'Z' {
            front + " UTC"@
        } else {
            front.push(s.last())
        }
    }
}

/// Who a line names as sender: the nickname, or the id where there is none.
pub open spec fn shown_sender(m: RawMessage) -> Seq<char> {
    if trimmed(m.sender_nickname@).len() == 0 {
        sanitized(m.sender_id@)
    } else {
        sanitized(m.sender_nickname@)
    }
}

/// What a line says of a message: its text, or its kind where it has no text.
pub open spec fn shown_body(m: RawMessage) -> Seq<char> {
    if trimmed(m.text@).len() == 0 {
        "<"@ + sanitized(m.message_type@) + ">"@
    } else {
        sanitized(m.text@)
    }
}

/// An edit is pointed out.
pub open spec fn change_label(change: WatchMessageChange) -> Seq<char> {
    match change {
        WatchMessageChange::Existing | WatchMessageChange::Inserted => ""@,
        WatchMessageChange::Updated => " (updated)"@,
    }
}

/// The line that tells a person of a message.
pub open spec fn human_line(change: WatchMessageChange, m: RawMessage) -> Seq<char> {
    "["@ + readable_time(rfc3339_seconds(m.timestamp.unix_seconds(), m.timestamp.sub_nanos()))
        + "] "@ + sanitized(m.chat_name@) + " / "@ + shown_sender(m) + change_label(change) + ": "@
        + shown_body(m)
}

fn readable(stamp: &str) -> (r: String)
    requires
        forall|i: int| 0 <= i < stamp@.len() ==> is_rfc3339_char(#[trigger] stamp@[i]),
    ensures
        r@ == readable_time(stamp@),
        control_free(r@),
{
    proof {
        reveal_strlit(" ");
        reveal_strlit(" UTC");
    }
    let mut r: String = String::new();
    for c in it: stamp.chars()
        invariant
            it.seq() == stamp@,
            forall|i: int| 0 <= i < stamp@.len() ==> is_rfc3339_char(#[trigger] stamp@[i]),
            r@ == readable_time(stamp@.take(it.index() as int)),
            control_free(r@),
            control_free(" "@),
            control_free(" UTC"@),
    {
        let ghost i = it.index() as int;
        assert(stamp@.take(i + 1).drop_last() =~= stamp@.take(i));
        assert(is_rfc3339_char(stamp@[i]));
        if c == 'T' {
            r.append(" ");
        } else if c == 'Z' {
            r.append(" UTC");
        } else {
            r.push(c);
        }
    }
    assert(stamp@.take(stamp@.len() as int) =~= stamp@);
    r
}

/// The line that tells a person of a message: one line without control characters.
pub fn format_human_message_line(change: WatchMessageChange, message: &RawMessage) -> (r: String)
    ensures
        r@ == human_line(change, *message),
        control_free(r@),
{
    proof {
        reveal_strlit("[");
        reveal_strlit("] ");
        reveal_strlit(" / ");
        reveal_strlit("");
        reveal_strlit(" (updated)");
        reveal_strlit(": ");
        reveal_strlit("<");
        reveal_strlit(">");
    }
    let stamp: String = readable(message.timestamp.to_rfc3339_seconds().as_str());
    let room: String = sanitize_terminal_text(message.chat_name.as_str());
    let sender: String = if is_blank(message.sender_nickname.as_str()) {
        sanitize_terminal_text(message.sender_id.as_str())
    } else {
        sanitize_terminal_text(message.sender_nickname.as_str())
    };
    let body: String = if is_blank(message.text.as_str()) {
        let mut kind: String = "<".to_owned();
        kind.append(sanitize_terminal_text(message.message_type.as_str()).as_str());
        kind.append(">");
        kind
    } else {
        sanitize_terminal_text(message.text.as_str())
    };
    let label: &str = match change {
        WatchMessageChange::Existing => "",
        WatchMessageChange::Inserted => "",
        WatchMessageChange::Updated => " (updated)",
    };
    let mut line: String = "[".to_owned();
    line.append(stamp.as_str());
    line.append("] ");
    line.append(room.as_str());
    line.append(" / ");
    line.append(sender.as_str());
    line.append(label);
    line.append(": ");
    line.append(body.as_str());
    line
}

/// A line quits exactly where the input ended or the line is one of three words, and asks for help
/// exactly where it is one of two others.
pub proof fn lemma_words_that_quit_and_help(bytes_read: usize, line: Seq<char>)
    ensures
        reply_command(bytes_read, line) is Quit <==> bytes_read == 0 || trimmed(line) == "/quit"@
            || trimmed(line) == "/exit"@ || trimmed(line) == "/q"@,
        reply_command(bytes_read, line) is Help <==> bytes_read > 0 && (trimmed(line) == "/help"@
            || trimmed(line) == "/?"@),
{
    reveal_strlit("/quit");
    reveal_strlit("/exit");
    reveal_strlit("/q");
    reveal_strlit("/help");
    reveal_strlit("/?");
    assert("/help"@[1] == 'h' && "/?"@[1] == '?');
    assert("/quit"@[1] == 'q' && "/exit"@[1] == 'e' && "/q"@[1] == 'q');
}

/// What is sent is what was typed: the whole line without the white space at its ends, or, behind
/// the word that asks for sending, the rest of the line. A line with another slash word is never
/// sent.
pub proof fn lemma_what_is_sent_was_typed(bytes_read: usize, line: Seq<char>)
    ensures
        reply_command(bytes_read, line) matches CommandView::Send(text) ==> {
            let typed = trimmed(line);
            if typed[0] != '/' {
                text == typed
            } else {
                &&& typed.take(5) == "/send"@
                &&& 5 + text.len() < typed.len()
                &&& typed.skip(typed.len() - text.len()) == text
                &&& forall|i: int|
                    5 <= i < typed.len() - text.len() ==> is_white(#[trigger] typed[i])
            }
        },
        trimmed(line).len() > 0 && trimmed(line)[0] == '/' && !starts_with(trimmed(line), "/send"@)
            ==> !(reply_command(bytes_read, line) is Send),
        trimmed(line).len() > 5 && starts_with(trimmed(line), "/send"@) && !is_white(
            trimmed(line)[5],
        ) ==> !(reply_command(bytes_read, line) is Send),
{
    reveal_strlit("/send");
    let typed = trimmed(line);
    if typed.len() > 0 && typed[0] != '/' && starts_with(typed, "/send"@) {
        assert(typed.take(5)[0] == "/send"@[0]);
    }
    if reply_command(bytes_read, line) is Send && typed[0] == '/' {
        let rest = typed.skip(5);
        let text = trimmed(rest);
        let (from, to) = lemma_trimmed_is_the_inner_part(rest);
        lemma_trimmed_ends(line);
        if to < rest.len() {
            assert(is_white(rest[rest.len() - 1]));
            assert(rest[rest.len() - 1] == typed.last());
        }
        assert(to == rest.len());
        assert(text =~= typed.skip(typed.len() - text.len()));
        assert forall|i: int| 5 <= i < typed.len() - text.len() implies is_white(
            #[trigger] typed[i],
        ) by {
            assert(rest[i - 5] == typed[i]);
        }
        if from == 0 {
            assert(!is_white(rest[0]));
        }
    }
}

/// A text behind the word that asks for sending is sent, a slash and all.
pub proof fn lemma_send_word_sends_the_rest(bytes_read: usize, line: Seq<char>, body: Seq<char>)
    requires
        bytes_read > 0,
        body.len() > 0,
        !is_white(body.first()),
        !is_white(body.last()),
        line == "/send "@ + body,
    ensures
        reply_command(bytes_read, line) == CommandView::Send(body),
{
    reveal_strlit("/send ");
    reveal_strlit("/send");
    reveal_strlit("/quit");
    reveal_strlit("/exit");
    reveal_strlit("/q");
    reveal_strlit("/help");
    reveal_strlit("/?");
    assert(line.last() == body.last());
    assert(line[0] == '/' && line[1] == 's' && line[5] == ' ');
    assert(trimmed(line) == line);
    assert("/quit"@[1] == 'q' && "/exit"@[1] == 'e' && "/q"@[1] == 'q');
    assert("/help"@[1] == 'h' && "/?"@[1] == '?');
    assert(line.take(5) =~= "/send"@);
    let rest = line.skip(5);
    assert(rest.drop_first() =~= body);
    assert(rest[0] == ' ');
    assert(trimmed(body) == body);
    assert(trimmed(rest) == trimmed(rest.drop_first()));
}

/// A blank line does nothing.
pub proof fn lemma_blank_line_does_nothing(bytes_read: usize, line: Seq<char>)
    requires
        bytes_read > 0,
        forall|i: int| 0 <= i < line.len() ==> is_white(#[trigger] line[i]),
    ensures
        reply_command(bytes_read, line) is Empty,
{
    lemma_blank_is_all_white(line);
}

/// The chats of messages are those that some message names.
pub proof fn lemma_chats_are_named_by_messages(messages: Seq<RawMessage>, chat_id: Seq<char>)
    ensures
        chats_of(messages).contains(chat_id) <==> exists|i: int|
            0 <= i < messages.len() && (#[trigger] messages[i]).chat_id@ == chat_id,
{
    let ids = messages.map_values(|m: RawMessage| m.chat_id@);
    if ids.contains(chat_id) {
        let i = ids.index_of(chat_id);
        assert(messages[i].chat_id@ == chat_id);
    }
    if exists|i: int| 0 <= i < messages.len() && (#[trigger] messages[i]).chat_id@ == chat_id {
        let i = choose|i: int|
            0 <= i < messages.len() && (#[trigger] messages[i]).chat_id@ == chat_id;
        assert(ids[i] == chat_id);
        assert(ids.contains(chat_id));
    }
}

/// A time is made readable part by part: only a T and a Z are written otherwise.
pub proof fn lemma_readable_time_by_parts(a: Seq<char>, b: Seq<char>)
    ensures
        readable_time(a + b) == readable_time(a) + readable_time(b),
        readable_time(seq!['T']) == seq![' '],
        readable_time(seq!['Z']) == seq![' ', 'U', 'T', 'C'],
        (forall|i: int| 0 <= i < b.len() ==> (#[trigger] b[i]) != 'T' && b[i] != 'Z')
            ==> readable_time(b) == b,
    decreases b.len(),
{
    reveal_strlit(" ");
    reveal_strlit(" UTC");
    let none = Seq::<char>::empty();
    assert(readable_time(none) =~= none);
    assert(seq!['T'].drop_last() =~= none);
    assert(seq!['Z'].drop_last() =~= none);
    assert(readable_time(seq!['T']) =~= seq![' ']);
    assert(readable_time(seq!['Z']) =~= seq![' ', 'U', 'T', 'C']);
    if b.len() == 0 {
        assert(a + b =~= a);
        assert(readable_time(a) + readable_time(b) =~= readable_time(a));
        assert(readable_time(b) =~= b);
    } else {
        lemma_readable_time_by_parts(a, b.drop_last());
        assert((a + b).drop_last() =~= a + b.drop_last());
        assert((a + b).last() == b.last());
        assert(readable_time(a + b) =~= readable_time(a) + readable_time(b));
        if forall|i: int| 0 <= i < b.len() ==> (#[trigger] b[i]) != 'T' && b[i] != 'Z' {
            assert(b[b.len() - 1] != 'T' && b[b.len() - 1] != 'Z');
            assert forall|i: int| 0 <= i < b.len() - 1 implies (#[trigger] b.drop_last()[i]) != 'T'
                && b.drop_last()[i] != 'Z' by {
                assert(b[i] != 'T' && b[i] != 'Z');
            }
            assert(b.drop_last().push(b.last()) =~= b);
        }
    }
}

/// A line names the sender by nickname where anything can be seen of it, else by id; it says the
/// text where anything can be seen of it, else the kind of the message in angle brackets.
pub proof fn lemma_line_falls_back_to_id_and_kind(m: RawMessage)
    ensures
        (exists|i: int|
            0 <= i < m.sender_nickname@.len() && !is_white(#[trigger] m.sender_nickname@[i]))
            ==> shown_sender(m) == sanitized(m.sender_nickname@),
        (forall|i: int|
            0 <= i < m.sender_nickname@.len() ==> is_white(#[trigger] m.sender_nickname@[i]))
            ==> shown_sender(m) == sanitized(m.sender_id@),
        (exists|i: int| 0 <= i < m.text@.len() && !is_white(#[trigger] m.text@[i])) ==> shown_body(
            m,
        ) == sanitized(m.text@),
        (forall|i: int| 0 <= i < m.text@.len() ==> is_white(#[trigger] m.text@[i])) ==> shown_body(
            m,
        ) == seq!['<'] + sanitized(m.message_type@) + seq!['>'],
{
    reveal_strlit("<");
    reveal_strlit(">");
    lemma_blank_is_all_white(m.sender_nickname@);
    lemma_blank_is_all_white(m.text@);
    assert("<"@ =~= seq!['<']);
    assert(">"@ =~= seq!['>']);
}

/// Only an edit is pointed out.
pub proof fn lemma_only_edits_are_labelled(change: WatchMessageChange)
    ensures
        change_label(change).len() > 0 <==> change == WatchMessageChange::Updated,
        change == WatchMessageChange::Updated ==> change_label(change) == " (updated)"@,
{
    reveal_strlit("");
    reveal_strlit(" (updated)");
}

/// A line tells when, where, who and what, in this order: the time in brackets, the chat, the
/// sender, the word for an edit, and at its end what was said.
pub proof fn lemma_line_tells_when_where_who_what(change: WatchMessageChange, m: RawMessage)
    ensures
        ({
            let line = human_line(change, m);
            let when = readable_time(
                rfc3339_seconds(m.timestamp.unix_seconds(), m.timestamp.sub_nanos()),
            );
            let room = sanitized(m.chat_name@);
            let who = shown_sender(m);
            let a = 1 + when.len() as int;
            let b = a + 2 + room.len();
            let c = b + 3 + who.len();
            let d = c + change_label(change).len();
            &&& line[0] == '['
            &&& line.subrange(1, a) == when
            &&& line.subrange(a, a + 2) == seq![']', ' ']
            &&& line.subrange(a + 2, b) == room
            &&& line.subrange(b, b + 3) == seq![' ', '/', ' ']
            &&& line.subrange(b + 3, c) == who
            &&& line.subrange(c, d) == change_label(change)
            &&& line.subrange(d, d + 2) == seq![':', ' ']
            &&& line.skip(d + 2) == shown_body(m)
        }),
{
    reveal_strlit("[");
    reveal_strlit("] ");
    reveal_strlit(" / ");
    reveal_strlit(": ");
    let line = human_line(change, m);
    let when = readable_time(rfc3339_seconds(m.timestamp.unix_seconds(), m.timestamp.sub_nanos()));
    let room = sanitized(m.chat_name@);
    let who = shown_sender(m);
    let a = 1 + when.len() as int;
    let b = a + 2 + room.len();
    let c = b + 3 + who.len();
    let d = c + change_label(change).len();
    assert(line.subrange(1, a) =~= when);
    assert(line.subrange(a, a + 2) =~= seq![']', ' ']);
    assert(line.subrange(a + 2, b) =~= room);
    assert(line.subrange(b, b + 3) =~= seq![' ', '/', ' ']);
    assert(line.subrange(b + 3, c) =~= who);
    assert(line.subrange(c, d) =~= change_label(change));
    assert(line.subrange(d, d + 2) =~= seq![':', ' ']);
    assert(line.skip(d + 2) =~= shown_body(m));
}

} // verus!
