//! Choosing a chat from a list: the order of the list, its lines, and what an answer picks.
use crate::chats::ChatSummary;
use crate::digits::{
    decimal, lemma_decimal_digits, lemma_parse_of_decimal, parse_size, parsed_size, size_text,
};
use crate::order::{is_stable_order, rank_of, stable_order, Ranked};
use crate::text::{
    lemma_text_antisymmetric, lemma_text_total, lemma_text_transitive, same_text,
    sanitize_terminal_text, sanitized, text_at_most, text_le, trim, trimmed,
};
use crate::time::{lemma_instants_ordered, lemma_order_of_instants, Timestamp};
use crate::width::{lemma_repeated, repeat_char, repeated};
use vstd::prelude::*;

verus! {

/// The first time is later than the second; a time is later than none.
pub open spec fn is_later(a: Option<Timestamp>, b: Option<Timestamp>) -> bool {
    match (a, b) {
        (Some(x), Some(y)) => !x.at_or_before(y),
        (Some(x), None) => true,
        (None, _) => false,
    }
}

/// Chats rank by their latest message, newest first and undated last, then by name, then by id.
pub open spec fn chat_no_later(a: ChatSummary, b: ChatSummary) -> bool {
    if a.last_message_at != b.last_message_at {
        is_later(a.last_message_at, b.last_message_at)
    } else if a.chat_name@ != b.chat_name@ {
        text_le(a.chat_name@, b.chat_name@)
    } else {
        text_le(a.chat_id@, b.chat_id@)
    }
}

proof fn lemma_later_total(a: Option<Timestamp>, b: Option<Timestamp>)
    ensures
        a != b ==> is_later(a, b) || is_later(b, a),
        !(is_later(a, b) && is_later(b, a)),
        !is_later(a, a),
{
    match (a, b) {
        (Some(x), Some(y)) => {
            lemma_instants_ordered(x, y);
            lemma_instants_ordered(x, x);
        },
        (Some(x), None) => lemma_instants_ordered(x, x),
        _ => {},
    }
}

fn same_time(a: &Option<Timestamp>, b: &Option<Timestamp>) -> (r: bool)
    ensures
        r == (*a == *b),
{
    match (a, b) {
        (Some(x), Some(y)) => {
            proof {
                lemma_instants_ordered(*x, *y);
            }
            x.is_at_or_before(y) && y.is_at_or_before(x)
        },
        (None, None) => true,
        _ => false,
    }
}

impl Ranked for ChatSummary {
    open spec fn no_later(&self, other: &Self) -> bool {
        chat_no_later(*self, *other)
    }

    proof fn lemma_total(a: &Self, b: &Self) {
        lemma_later_total(a.last_message_at, b.last_message_at);
        lemma_text_total(a.chat_name@, b.chat_name@);
        lemma_text_total(a.chat_id@, b.chat_id@);
    }

    proof fn lemma_transitive(a: &Self, b: &Self, c: &Self) {
        let x = a.last_message_at;
        let y = b.last_message_at;
        let z = c.last_message_at;
        lemma_later_total(x, y);
        lemma_later_total(y, z);
        lemma_later_total(x, z);
        if x == y && y == z {
            if a.chat_name@ != b.chat_name@ || b.chat_name@ != c.chat_name@ {
                if a.chat_name@ != b.chat_name@ && b.chat_name@ != c.chat_name@ {
                    lemma_text_transitive(a.chat_name@, b.chat_name@, c.chat_name@);
                    if a.chat_name@ == c.chat_name@ {
                        lemma_text_antisymmetric(a.chat_name@, b.chat_name@);
                    }
                }
            } else {
                lemma_text_transitive(a.chat_id@, b.chat_id@, c.chat_id@);
            }
        }
    }

    fn ranks_no_later(&self, other: &Self) -> (r: bool) {
        if !same_time(&self.last_message_at, &other.last_message_at) {
            match (&self.last_message_at, &other.last_message_at) {
                (Some(x), Some(y)) => !x.is_at_or_before(y),
                (Some(_), None) => true,
                (None, _) => false,
            }
        } else if self.chat_name != other.chat_name {
            text_at_most(self.chat_name.as_str(), other.chat_name.as_str())
        } else {
            text_at_most(self.chat_id.as_str(), other.chat_id.as_str())
        }
    }
}

/// `after` is `before` in the order of selection.
pub open spec fn is_selection_order(before: Seq<ChatSummary>, after: Seq<ChatSummary>) -> bool {
    exists|order: Seq<usize>|
        {
            &&& #[trigger] is_stable_order(before.len(), rank_of(before), order)
            &&& after == order.map_values(|i: usize| before[i as int])
        }
}

/// Puts chats in the order of selection: those with the latest message first, undated ones last,
/// ties by name and then by id, so that the list is the same in every run.
pub fn order_chats_for_selection(chats: &mut Vec<ChatSummary>)
    ensures
        is_selection_order(old(chats)@, final(chats)@),
{
    let ghost before = chats@;
    let order: Vec<usize> = stable_order(chats);
    let mut sorted: Vec<ChatSummary> = Vec::new();
    for k in 0..order.len()
        invariant
            chats@ == before,
            is_stable_order(before.len(), rank_of(before), order@),
            sorted.len() == k,
            forall|j: int| 0 <= j < k ==> #[trigger] sorted@[j] == before[order@[j] as int],
    {
        sorted.push(chats[order[k]].clone());
    }
    assert(sorted@ =~= order@.map_values(|i: usize| before[i as int]));
    *chats = sorted;
}

/// In the order of selection every chat ranks no later than those behind it, and no chat is lost
/// or listed twice.
pub proof fn lemma_selection_order(before: Seq<ChatSummary>, after: Seq<ChatSummary>)
    requires
        is_selection_order(before, after),
    ensures
        after.len() == before.len(),
        forall|a: int, b: int|
            0 <= a < b < after.len() ==> chat_no_later(#[trigger] after[a], #[trigger] after[b]),
        forall|k: int| 0 <= k < after.len() ==> before.contains(#[trigger] after[k]),
        forall|i: int| 0 <= i < before.len() && before.len() <= usize::MAX ==> after.contains(#[trigger] before[i]),
{
    let order = choose|order: Seq<usize>|
        {
            &&& #[trigger] is_stable_order(before.len(), rank_of(before), order)
            &&& after == order.map_values(|i: usize| before[i as int])
        };
    assert forall|a: int, b: int| 0 <= a < b < after.len() implies chat_no_later(
        #[trigger] after[a],
        #[trigger] after[b],
    ) by {
        assert(crate::order::precedes(rank_of(before), order[a], order[b]));
        assert(rank_of(before)(order[a] as int, order[b] as int));
    }
    assert forall|i: int| 0 <= i < before.len() && before.len() <= usize::MAX implies after.contains(#[trigger] before[i]) by {
        let u = i as usize;
        assert(order.contains(u));
        let k = choose|k: int| 0 <= k < order.len() && order[k] == u;
        assert(after[k] == before[i]);
    }
}

/// A number at the right of a field of `width` columns.
pub open spec fn right_aligned(n: nat, width: nat) -> Seq<char> {
    repeated(
        ' ',
        if decimal(n).len() < width {
            (width - decimal(n).len()) as nat
        } else {
            0
        },
    ) + decimal(n)
}

/// The line of a chat in the list.
pub open spec fn choice_text(number: nat, chat: ChatSummary) -> Seq<char> {
    right_aligned(number, 3) + ". "@ + sanitized(chat.chat_name@) + " ("@ + sanitized(
        chat.chat_type@,
    ) + ", "@ + sanitized(chat.chat_id@) + ")"@
}

/// The line of a chat in the list.
pub fn choice_line(number: usize, chat: &ChatSummary) -> (r: String)
    ensures
        r@ == choice_text(number as nat, *chat),
{
    let digits: String = size_text(number);
    let count: usize = crate::digits::char_count(digits.as_str());
    let mut line: String = repeat_char(' ', (3usize).saturating_sub(count));
    line.append(digits.as_str());
    line.append(". ");
    line.append(sanitize_terminal_text(chat.chat_name.as_str()).as_str());
    line.append(" (");
    line.append(sanitize_terminal_text(chat.chat_type.as_str()).as_str());
    line.append(", ");
    line.append(sanitize_terminal_text(chat.chat_id.as_str()).as_str());
    line.append(")");
    line
}

/// The chat is one whose latest message is known.
pub open spec fn has_time(chat: ChatSummary) -> bool {
    chat.last_message_at is Some
}

/// Chats by their numbers, from one on: those with a time in their order, then the others in
/// reverse, so that the others stand in their order at the top of the list.
pub open spec fn numbered(chats: Seq<ChatSummary>) -> Seq<ChatSummary> {
    chats.filter(|chat: ChatSummary| has_time(chat)) + chats.filter(
        |chat: ChatSummary| !has_time(chat),
    ).reverse()
}

proof fn lemma_numbered_len(chats: Seq<ChatSummary>)
    ensures
        numbered(chats).len() == chats.len(),
    decreases chats.len(),
{
    reveal(Seq::filter);
    if chats.len() > 0 {
        lemma_numbered_len(chats.drop_last());
    }
}

fn by_number(chats: &Vec<ChatSummary>) -> (r: Vec<ChatSummary>)
    ensures
        r@ == numbered(chats@),
        r@.len() == chats@.len(),
{
    let ghost dated = |chat: ChatSummary| has_time(chat);
    let ghost undated = |chat: ChatSummary| !has_time(chat);
    let mut r: Vec<ChatSummary> = Vec::new();
    let n: usize = chats.len();
    proof {
        reveal(Seq::filter);
        assert(chats@.take(0).filter(dated) =~= r@);
    }
    for i in 0..n
        invariant
            n == chats.len(),
            dated == (|chat: ChatSummary| has_time(chat)),
            r@ == chats@.take(i as int).filter(dated),
    {
        proof {
            reveal(Seq::filter);
            assert(chats@.take(i + 1).drop_last() =~= chats@.take(i as int));
        }
        if chats[i].last_message_at.is_some() {
            r.push(chats[i].clone());
        }
    }
    assert(chats@.take(n as int) =~= chats@);
    let ghost front = r@;
    let mut k: usize = n;
    assert(front + chats@.filter(undated).reverse() =~= r@ + chats@.take(k as int).filter(
        undated,
    ).reverse());
    while k > 0
        invariant
            n == chats.len(),
            k <= n,
            undated == (|chat: ChatSummary| !has_time(chat)),
            front + chats@.filter(undated).reverse() == r@ + chats@.take(k as int).filter(
                undated,
            ).reverse(),
        decreases k,
    {
        let ghost before = r@;
        let ghost rest = chats@.take(k - 1).filter(undated);
        proof {
            reveal(Seq::filter);
            assert(chats@.take(k as int).drop_last() =~= chats@.take(k - 1));
        }
        if chats[k - 1].last_message_at.is_none() {
            r.push(chats[k - 1].clone());
            assert(before + rest.push(chats@[k - 1]).reverse() =~= r@ + rest.reverse());
        }
        k = k - 1;
    }
    proof {
        reveal(Seq::filter);
        assert(chats@.take(0).filter(undated).reverse() =~= Seq::<ChatSummary>::empty());
        assert(r@ =~= numbered(chats@));
        lemma_numbered_len(chats@);
    }
    r
}

/// The list as it is shown, from the top: the chats with a time from the oldest down to the
/// newest, which has the number one and stands last, right above the prompt; above them those
/// without a time, by name.
pub fn choice_lines(chats: &Vec<ChatSummary>) -> (lines: Vec<String>)
    ensures
        lines@.len() == chats@.len(),
        forall|k: int|
            #![trigger lines@[k]]
            0 <= k < lines@.len() ==> lines@[k]@ == choice_text(
                (chats@.len() - k) as nat,
                numbered(chats@)[chats@.len() - 1 - k],
            ),
{
    let mut lines: Vec<String> = Vec::new();
    let list: Vec<ChatSummary> = by_number(chats);
    let n: usize = list.len();
    for k in 0..n
        invariant
            n == list.len(),
            lines.len() == k,
            forall|j: int|
                #![trigger lines@[j]]
                0 <= j < k ==> lines@[j]@ == choice_text((n - j) as nat, list@[n - 1 - j]),
    {
        lines.push(choice_line(n - k, &list[n - 1 - k]));
    }
    lines
}

proof fn lemma_dated_front(chats: Seq<ChatSummary>)
    requires
        forall|a: int, b: int|
            0 <= a < b < chats.len() && has_time(#[trigger] chats[b]) ==> has_time(
                #[trigger] chats[a],
            ),
    ensures
        ({
            let dated = chats.filter(|chat: ChatSummary| has_time(chat));
            let undated = chats.filter(|chat: ChatSummary| !has_time(chat));
            &&& dated.len() <= chats.len()
            &&& dated == chats.take(dated.len() as int)
            &&& undated == chats.skip(dated.len() as int)
            &&& forall|k: int|
                0 <= k < chats.len() ==> has_time(#[trigger] chats[k]) == (k < dated.len())
        }),
    decreases chats.len(),
{
    reveal(Seq::filter);
    let dated = chats.filter(|chat: ChatSummary| has_time(chat));
    let undated = chats.filter(|chat: ChatSummary| !has_time(chat));
    if chats.len() > 0 {
        let front = chats.drop_last();
        assert forall|a: int, b: int| 0 <= a < b < front.len() && has_time(
            #[trigger] front[b],
        ) implies has_time(#[trigger] front[a]) by {
            assert(has_time(chats[b]));
            assert(has_time(chats[a]));
        }
        lemma_dated_front(front);
        let d = front.filter(|chat: ChatSummary| has_time(chat)).len() as int;
        if has_time(chats.last()) {
            assert(d == front.len()) by {
                if d < front.len() {
                    assert(!has_time(front[d]));
                    assert(has_time(chats[chats.len() - 1]));
                    assert(has_time(chats[d]));
                }
            }
        }
        assert forall|k: int| 0 <= k < chats.len() implies has_time(#[trigger] chats[k]) == (k
            < dated.len()) by {
            if k < front.len() {
                assert(has_time(front[k]) == (k < d));
            }
        }
        assert(dated =~= chats.take(dated.len() as int));
        assert(undated =~= chats.skip(dated.len() as int));
    } else {
        assert(dated =~= chats.take(0));
        assert(undated =~= chats.skip(0));
    }
}

/// In the list of chats in the order of selection, a chat with a time has a smaller number than
/// every chat without one; of two with a time the smaller number ranks no later, so the newest
/// has the number one; of two without a time the greater number, which stands above, ranks no
/// later.
pub proof fn lemma_list_order(before: Seq<ChatSummary>, after: Seq<ChatSummary>, a: int, b: int)
    requires
        is_selection_order(before, after),
        0 <= a < b < after.len(),
    ensures
        numbered(after).len() == after.len(),
        has_time(numbered(after)[b]) ==> has_time(numbered(after)[a]) && chat_no_later(
            numbered(after)[a],
            numbered(after)[b],
        ),
        !has_time(numbered(after)[a]) ==> !has_time(numbered(after)[b]) && chat_no_later(
            numbered(after)[b],
            numbered(after)[a],
        ),
{
    lemma_selection_order(before, after);
    lemma_numbered_len(after);
    assert forall|i: int, j: int| 0 <= i < j < after.len() && has_time(
        #[trigger] after[j],
    ) implies has_time(#[trigger] after[i]) by {
        assert(chat_no_later(after[i], after[j]));
    }
    lemma_dated_front(after);
    let d = after.filter(|chat: ChatSummary| has_time(chat)).len() as int;
    let n = after.len() as int;
    if b < d {
        assert(chat_no_later(after[a], after[b]));
    }
    if a >= d {
        assert(numbered(after)[a] == after[n - 1 - (a - d)]);
        assert(numbered(after)[b] == after[n - 1 - (b - d)]);
        assert(chat_no_later(after[n - 1 - (b - d)], after[n - 1 - (a - d)]));
    } else if b >= d {
        assert(numbered(after)[b] == after[n - 1 - (b - d)]);
    }
}

/// Why no chat was chosen.
#[derive(Debug, PartialEq, Eq)]
pub enum SelectionError {
    NoChats,
    NothingSelected,
    OutOfRange(usize),
    UnknownChat(String),
}

impl SelectionError {
    /// The error in words.
    pub open spec fn text(self) -> Seq<char> {
        match self {
            SelectionError::NoChats => "no chats found in source"@,
            SelectionError::NothingSelected => "no chat selected"@,
            SelectionError::OutOfRange(number) => "chat number "@ + decimal(number as nat)
                + " is out of range"@,
            SelectionError::UnknownChat(id) => "no chat_id "@ + id@ + " in source"@,
        }
    }

    /// The error in words.
    pub fn message(&self) -> (r: String)
        ensures
            r@ == self.text(),
    {
        match self {
            SelectionError::NoChats => "no chats found in source".to_owned(),
            SelectionError::NothingSelected => "no chat selected".to_owned(),
            SelectionError::OutOfRange(number) => {
                let mut text: String = "chat number ".to_owned();
                text.append(size_text(*number).as_str());
                text.append(" is out of range");
                text
            },
            SelectionError::UnknownChat(id) => {
                let mut text: String = "no chat_id ".to_owned();
                text.append(id.as_str());
                text.append(" in source");
                text
            },
        }
    }
}

/// The place of the first chat with this id.
pub open spec fn place_of(chats: Seq<ChatSummary>, id: Seq<char>) -> Option<int>
    decreases chats.len(),
{
    if chats.len() == 0 {
        None
    } else {
        match place_of(chats.drop_last(), id) {
            Some(k) => Some(k),
            None => if chats.last().chat_id@ == id {
                Some(chats.len() - 1)
            } else {
                None
            },
        }
    }
}

/// What an answer picks: a number picks the chat beside it in the list, anything else picks by id.
pub open spec fn picks(chats: Seq<ChatSummary>, input: Seq<char>) -> Option<ChatSummary> {
    let answer = trimmed(input);
    match parsed_size(answer) {
        Some(number) => {
            let place = if number == 0 {
                0
            } else {
                number - 1
            };
            if place < chats.len() {
                Some(numbered(chats)[place])
            } else {
                None
            }
        },
        None => match place_of(chats, answer) {
            Some(place) => Some(chats[place]),
            None => None,
        },
    }
}

/// The chat that an answer picks from the list.
pub fn choose_chat(chats: &Vec<ChatSummary>, input: &str) -> (r: Result<
    ChatSummary,
    SelectionError,
>)
    ensures
        if chats@.len() == 0 {
            r == Err::<ChatSummary, _>(SelectionError::NoChats)
        } else if trimmed(input@).len() == 0 {
            r == Err::<ChatSummary, _>(SelectionError::NothingSelected)
        } else {
            match picks(chats@, input@) {
                Some(chat) => r == Ok::<_, SelectionError>(chat),
                None => match parsed_size(trimmed(input@)) {
                    Some(number) => r == Err::<ChatSummary, _>(SelectionError::OutOfRange(number)),
                    None => r matches Err(SelectionError::UnknownChat(id)) && id@ == trimmed(
                        input@,
                    ),
                },
            }
        },
{
    if chats.len() == 0 {
        return Err(SelectionError::NoChats);
    }
    let answer: String = trim(input);
    if answer.as_str().is_empty() {
        return Err(SelectionError::NothingSelected);
    }
    match parse_size(answer.as_str()) {
        Some(number) => {
            let place: usize = number.saturating_sub(1);
            if place < chats.len() {
                let list: Vec<ChatSummary> = by_number(chats);
                Ok(list[place].clone())
            } else {
                Err(SelectionError::OutOfRange(number))
            }
        },
        None => {
            let mut i: usize = 0;
            while i < chats.len()
                invariant
                    i <= chats.len(),
                    answer@ == trimmed(input@),
                    answer@.len() > 0,
                    parsed_size(answer@) is None,
                    place_of(chats@.take(i as int), answer@) is None,
                decreases chats.len() - i,
            {
                assert(chats@.take(i + 1).drop_last() =~= chats@.take(i as int));
                if same_text(chats[i].chat_id.as_str(), answer.as_str()) {
                    proof {
                        lemma_place_front(chats@, answer@, i + 1);
                    }
                    return Ok(chats[i].clone());
                }
                i = i + 1;
            }
            assert(chats@.take(chats@.len() as int) =~= chats@);
            Err(SelectionError::UnknownChat(answer))
        },
    }
}

proof fn lemma_place_front(chats: Seq<ChatSummary>, id: Seq<char>, n: int)
    requires
        0 <= n <= chats.len(),
        place_of(chats.take(n), id) is Some,
    ensures
        place_of(chats, id) == place_of(chats.take(n), id),
    decreases chats.len(),
{
    if n == chats.len() {
        assert(chats.take(n) =~= chats);
    } else {
        assert(chats.drop_last().take(n) =~= chats.take(n));
        lemma_place_front(chats.drop_last(), id, n);
    }
}

/// The number beside a chat picks that chat.
pub proof fn lemma_number_picks_its_chat(chats: Seq<ChatSummary>, number: usize)
    requires
        1 <= number <= chats.len(),
    ensures
        picks(chats, decimal(number as nat)) == Some(numbered(chats)[number - 1]),
{
    lemma_decimal_digits(number as nat);
    let text = decimal(number as nat);
    assert('0' <= text[0] <= '9');
    assert('0' <= text[text.len() - 1] <= '9');
    assert(trimmed(text) == text);
    lemma_parse_of_decimal(number);
}

/// Chats rank by the seconds of their latest message, newest first; one with a message comes before
/// one without; of the same time they rank by name, and of the same name by id.
pub proof fn lemma_newest_chats_first(a: ChatSummary, b: ChatSummary)
    ensures
        a.last_message_at is Some && b.last_message_at is Some
            && a.last_message_at->0.unix_seconds() > b.last_message_at->0.unix_seconds()
            ==> chat_no_later(a, b) && !chat_no_later(b, a),
        a.last_message_at is Some && b.last_message_at is Some
            && a.last_message_at->0.unix_seconds() == b.last_message_at->0.unix_seconds()
            && a.last_message_at->0.sub_nanos() > b.last_message_at->0.sub_nanos()
            ==> chat_no_later(a, b) && !chat_no_later(b, a),
        a.last_message_at is Some && b.last_message_at is None ==> chat_no_later(a, b)
            && !chat_no_later(b, a),
        a.last_message_at == b.last_message_at && a.chat_name@ != b.chat_name@ ==> (chat_no_later(
            a,
            b,
        ) <==> text_le(a.chat_name@, b.chat_name@)),
        a.last_message_at == b.last_message_at && a.chat_name@ == b.chat_name@ ==> (chat_no_later(
            a,
            b,
        ) <==> text_le(a.chat_id@, b.chat_id@)),
{
    if a.last_message_at is Some && b.last_message_at is Some {
        lemma_order_of_instants(a.last_message_at->0, b.last_message_at->0);
        lemma_order_of_instants(b.last_message_at->0, a.last_message_at->0);
    }
}

/// The number stands at the right of its field: spaces, then its digits, which are never cut.
pub proof fn lemma_number_stands_at_the_right(n: nat, width: nat)
    ensures
        ({
            let text = right_aligned(n, width);
            let digits = decimal(n);
            &&& text.len() == if digits.len() < width {
                width
            } else {
                digits.len()
            }
            &&& text.skip(text.len() - digits.len()) == digits
            &&& forall|i: int| 0 <= i < text.len() - digits.len() ==> (#[trigger] text[i]) == ' '
        }),
{
    let text = right_aligned(n, width);
    let digits = decimal(n);
    let pad = if digits.len() < width {
        (width - digits.len()) as nat
    } else {
        0
    };
    lemma_repeated(' ', pad);
    assert(text.skip(text.len() - digits.len()) =~= digits);
}

/// The line of a chat gives its number, its name, its kind and its id, in this order and each as a
/// terminal may show it.
pub proof fn lemma_choice_line_shows_the_chat(number: nat, chat: ChatSummary)
    ensures
        ({
            let line = choice_text(number, chat);
            let name = sanitized(chat.chat_name@);
            let kind = sanitized(chat.chat_type@);
            let id = sanitized(chat.chat_id@);
            let a = right_aligned(number, 3).len() as int;
            let b = a + 2 + name.len();
            let c = b + 2 + kind.len();
            let d = c + 2 + id.len();
            &&& line.take(a) == right_aligned(number, 3)
            &&& line.subrange(a, a + 2) == seq!['.', ' ']
            &&& line.subrange(a + 2, b) == name
            &&& line.subrange(b, b + 2) == seq![' ', '(']
            &&& line.subrange(b + 2, c) == kind
            &&& line.subrange(c, c + 2) == seq![',', ' ']
            &&& line.subrange(c + 2, d) == id
            &&& line.skip(d) == seq![')']
        }),
{
    reveal_strlit(". ");
    reveal_strlit(" (");
    reveal_strlit(", ");
    reveal_strlit(")");
    let line = choice_text(number, chat);
    let name = sanitized(chat.chat_name@);
    let kind = sanitized(chat.chat_type@);
    let id = sanitized(chat.chat_id@);
    let a = right_aligned(number, 3).len() as int;
    let b = a + 2 + name.len();
    let c = b + 2 + kind.len();
    let d = c + 2 + id.len();
    assert(line.take(a) =~= right_aligned(number, 3));
    assert(line.subrange(a, a + 2) =~= seq!['.', ' ']);
    assert(line.subrange(a + 2, b) =~= name);
    assert(line.subrange(b, b + 2) =~= seq![' ', '(']);
    assert(line.subrange(b + 2, c) =~= kind);
    assert(line.subrange(c, c + 2) =~= seq![',', ' ']);
    assert(line.subrange(c + 2, d) =~= id);
    assert(line.skip(d) =~= seq![')']);
}

/// An id stands at the place of the first chat that has it.
pub proof fn lemma_first_chat_of_an_id(chats: Seq<ChatSummary>, id: Seq<char>)
    ensures
        match place_of(chats, id) {
            Some(k) => 0 <= k < chats.len() && chats[k].chat_id@ == id && forall|i: int|
                0 <= i < k ==> (#[trigger] chats[i]).chat_id@ != id,
            None => forall|i: int| 0 <= i < chats.len() ==> (#[trigger] chats[i]).chat_id@ != id,
        },
    decreases chats.len(),
{
    if chats.len() > 0 {
        let front = chats.drop_last();
        lemma_first_chat_of_an_id(front, id);
        match place_of(front, id) {
            Some(k) => {
                assert forall|i: int| 0 <= i < k implies (#[trigger] chats[i]).chat_id@ != id by {
                    assert(front[i].chat_id@ != id);
                }
            },
            None => {
                assert forall|i: int| 0 <= i < chats.len() - 1 implies (#[trigger] chats[i]).chat_id@
                    != id by {
                    assert(front[i].chat_id@ != id);
                }
            },
        }
    }
}

/// Whatever an answer picks is a listed chat. An answer that is no number picks the chat of that
/// very id and no other.
pub proof fn lemma_answer_picks_a_listed_chat(chats: Seq<ChatSummary>, input: Seq<char>)
    ensures
        picks(chats, input) is Some ==> chats.contains(picks(chats, input)->0),
        parsed_size(trimmed(input)) is None && picks(chats, input) is Some ==> picks(
            chats,
            input,
        )->0.chat_id@ == trimmed(input),
        parsed_size(trimmed(input)) is None ==> (picks(chats, input) is Some <==> exists|i: int|
            0 <= i < chats.len() && (#[trigger] chats[i]).chat_id@ == trimmed(input)),
        parsed_size(trimmed(input)) is Some ==> (picks(chats, input) is Some <==> parsed_size(
            trimmed(input),
        )->0 <= chats.len() && chats.len() > 0),
{
    lemma_first_chat_of_an_id(chats, trimmed(input));
    if parsed_size(trimmed(input)) is Some && picks(chats, input) is Some {
        let number = parsed_size(trimmed(input))->0;
        let place = if number == 0 {
            0
        } else {
            number - 1
        };
        lemma_numbered_len(chats);
        lemma_numbered_are_listed(chats, place);
    }
}

proof fn lemma_numbered_are_listed(chats: Seq<ChatSummary>, place: int)
    requires
        0 <= place < numbered(chats).len(),
    ensures
        chats.contains(numbered(chats)[place]),
{
    let dated = |chat: ChatSummary| has_time(chat);
    let undated = |chat: ChatSummary| !has_time(chat);
    let first = chats.filter(dated);
    let rest = chats.filter(undated);
    let chat = numbered(chats)[place];
    if place < first.len() {
        assert(chat == first[place]);
        assert(first.contains(chat));
        lemma_filtered_is_member(chats, dated, chat);
    } else {
        assert(chat == rest[rest.len() - 1 - (place - first.len())]);
        assert(rest.contains(chat));
        lemma_filtered_is_member(chats, undated, chat);
    }
}

proof fn lemma_filtered_is_member(
    chats: Seq<ChatSummary>,
    kept: spec_fn(ChatSummary) -> bool,
    chat: ChatSummary,
)
    requires
        chats.filter(kept).contains(chat),
    ensures
        chats.contains(chat),
    decreases chats.len(),
{
    reveal(Seq::filter);
    if chats.len() > 0 {
        let front = chats.drop_last();
        let all = chats.filter(kept);
        let k = all.index_of(chat);
        if k < front.filter(kept).len() {
            assert(front.filter(kept)[k] == chat);
            lemma_filtered_is_member(front, kept, chat);
            let i = front.index_of(chat);
            assert(chats[i] == chat);
        } else {
            assert(chats[chats.len() - 1] == chat);
        }
    }
}

/// A refused answer is repeated in the error.
pub proof fn lemma_selection_error_repeats_the_answer(number: usize, id: String)
    ensures
        SelectionError::OutOfRange(number).text().subrange(
            12,
            12 + decimal(number as nat).len() as int,
        ) == decimal(number as nat),
        SelectionError::UnknownChat(id).text().subrange(11, 11 + id@.len() as int) == id@,
{
    reveal_strlit("chat number ");
    reveal_strlit("no chat_id ");
    assert("chat number "@.len() == 12);
    assert("no chat_id "@.len() == 11);
    assert(SelectionError::OutOfRange(number).text().subrange(
        12,
        12 + decimal(number as nat).len() as int,
    ) =~= decimal(number as nat));
    assert(SelectionError::UnknownChat(id).text().subrange(11, 11 + id@.len() as int) =~= id@);
}

} // verus!
