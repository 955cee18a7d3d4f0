//! What a watch has seen, and what changed since.
use crate::order::{
    is_stable_order, lemma_same_rank_same_order, lemma_triple_antisymmetric, lemma_triple_total,
    lemma_triple_transitive, precedes, rank_of, stable_order, triple_le, Ranked, TextTriple,
};
use crate::text::{same_text, text_le};
use crate::time::{has_plain_year, is_dated_text, is_instant, rfc3339};
use crate::types::{optional_text, RawMessage, TextKey};
use vstd::prelude::*;

verus! {

pub const WATCH_EVENT_SCHEMA_VERSION: u8 = 1;

/// Why a message is announced.
#[derive(Debug, Clone, Copy, PartialEq, Eq, Structural)]
pub enum WatchMessageChange {
    Existing,
    Inserted,
    Updated,
}

/// How far a watch has come.
#[derive(Debug, Clone, Copy, PartialEq, Eq, Structural)]
pub enum WatchState {
    Started,
    Reading,
    Synced,
    Idle,
}

/// What a watch reports.
#[derive(Debug, PartialEq, Eq)]
pub enum WatchEvent {
    State {
        schema_version: u8,
        state: WatchState,
        poll: u64,
        observed_messages: usize,
        observed_chats: usize,
        emitted_messages: usize,
        archived_messages: Option<usize>,
        chunks: Option<usize>,
    },
    Message {
        schema_version: u8,
        change: WatchMessageChange,
        poll: u64,
        message: RawMessage,
    },
}

impl Clone for WatchEvent {
    fn clone(&self) -> (r: Self)
        ensures
            r == *self,
    {
        match self {
            WatchEvent::State {
                schema_version,
                state,
                poll,
                observed_messages,
                observed_chats,
                emitted_messages,
                archived_messages,
                chunks,
            } => WatchEvent::State {
                schema_version: *schema_version,
                state: *state,
                poll: *poll,
                observed_messages: *observed_messages,
                observed_chats: *observed_chats,
                emitted_messages: *emitted_messages,
                archived_messages: *archived_messages,
                chunks: *chunks,
            },
            WatchEvent::Message { schema_version, change, poll, message } => WatchEvent::Message {
                schema_version: *schema_version,
                change: *change,
                poll: *poll,
                message: message.clone(),
            },
        }
    }
}

/// Everything of a message that counts as an edit when it differs.
pub struct FingerprintView {
    pub chat_name: Seq<char>,
    pub chat_type: Seq<char>,
    pub sender_id: Seq<char>,
    pub sender_nickname: Seq<char>,
    pub timestamp: Seq<char>,
    pub text: Seq<char>,
    pub message_type: Seq<char>,
    pub reply_to_message_id: Option<Seq<char>>,
}

/// The fingerprint of a message.
pub open spec fn fingerprint_of(m: RawMessage) -> FingerprintView {
    FingerprintView {
        chat_name: m.chat_name@,
        chat_type: m.chat_type@,
        sender_id: m.sender_id@,
        sender_nickname: m.sender_nickname@,
        timestamp: rfc3339(m.timestamp.unix_seconds(), m.timestamp.sub_nanos()),
        text: m.text@,
        message_type: m.message_type@,
        reply_to_message_id: optional_text(m.reply_to_message_id),
    }
}

/// The fingerprint of each message of a poll by its identity; of two with one identity the
/// later counts.
pub open spec fn seen_in(messages: Seq<RawMessage>) -> Map<TextKey, FingerprintView>
    decreases messages.len(),
{
    if messages.len() == 0 {
        Map::empty()
    } else {
        seen_in(messages.drop_last()).insert(
            messages.last().identity(),
            fingerprint_of(messages.last()),
        )
    }
}

/// What is new about a message, given what was seen before.
pub open spec fn change_of(
    known: Map<TextKey, FingerprintView>,
    initial: bool,
    replay_existing: bool,
    m: RawMessage,
) -> Option<WatchMessageChange> {
    if known.contains_key(m.identity()) {
        if known[m.identity()] != fingerprint_of(m) {
            Some(WatchMessageChange::Updated)
        } else {
            None
        }
    } else if !initial {
        Some(WatchMessageChange::Inserted)
    } else if replay_existing {
        Some(WatchMessageChange::Existing)
    } else {
        None
    }
}

/// The filter, if there is one, names the chat of the message.
pub open spec fn passes(filter: Option<Seq<char>>, m: RawMessage) -> bool {
    filter is None || filter->0 == m.chat_id@
}

/// A message to announce, with the reason.
pub struct Announcement {
    pub change: WatchMessageChange,
    pub message: RawMessage,
}

/// The messages to announce, in the order of the poll.
pub open spec fn announced(
    known: Map<TextKey, FingerprintView>,
    initial: bool,
    replay_existing: bool,
    filter: Option<Seq<char>>,
    messages: Seq<RawMessage>,
) -> Seq<Announcement>
    decreases messages.len(),
{
    if messages.len() == 0 {
        Seq::empty()
    } else {
        let front = announced(known, initial, replay_existing, filter, messages.drop_last());
        let m = messages.last();
        match change_of(known, initial, replay_existing, m) {
            Some(change) => if passes(filter, m) {
                front.push(Announcement { change, message: m })
            } else {
                front
            },
            None => front,
        }
    }
}

/// Announced messages rank by time, then chat, then message id.
pub open spec fn send_rank(list: Seq<Announcement>) -> spec_fn(int, int) -> bool {
    |i: int, j: int| triple_le(list[i].message.send_key(), list[j].message.send_key())
}

/// The event that announces a message.
pub open spec fn message_event(poll: u64, item: Announcement) -> WatchEvent {
    WatchEvent::Message {
        schema_version: WATCH_EVENT_SCHEMA_VERSION,
        change: item.change,
        poll,
        message: item.message,
    }
}

/// `events` announce exactly the messages of `list`, in send order; ties keep their order.
pub open spec fn announces(
    events: Seq<WatchEvent>,
    poll: u64,
    list: Seq<Announcement>,
) -> bool {
    exists|order: Seq<usize>|
        #![trigger is_stable_order(list.len(), send_rank(list), order)]
        {
            &&& is_stable_order(list.len(), send_rank(list), order)
            &&& events == order.map_values(|i: usize| message_event(poll, list[i as int]))
        }
}

/// Messages of plain years are announced in the order of their times.
pub open spec fn is_in_time_order(events: Seq<WatchEvent>) -> bool {
    forall|i: int, j: int|
        0 <= i <= j < events.len() && (#[trigger] events[i]) is Message && (
        #[trigger] events[j]) is Message && has_plain_year(
            events[i]->message.timestamp.unix_seconds(),
        ) && has_plain_year(events[j]->message.timestamp.unix_seconds())
            ==> events[i]->message.timestamp.at_or_before(events[j]->message.timestamp)
}

/// Only one list of events announces given messages in send order.
pub proof fn lemma_announces_unique(
    a: Seq<WatchEvent>,
    b: Seq<WatchEvent>,
    poll: u64,
    list: Seq<Announcement>,
)
    requires
        announces(a, poll, list),
        announces(b, poll, list),
    ensures
        a == b,
{
    let rank = send_rank(list);
    let x = choose|order: Seq<usize>|
        #![trigger is_stable_order(list.len(), rank, order)]
        {
            &&& is_stable_order(list.len(), rank, order)
            &&& a == order.map_values(|i: usize| message_event(poll, list[i as int]))
        };
    let y = choose|order: Seq<usize>|
        #![trigger is_stable_order(list.len(), rank, order)]
        {
            &&& is_stable_order(list.len(), rank, order)
            &&& b == order.map_values(|i: usize| message_event(poll, list[i as int]))
        };
    crate::order::lemma_stable_order_unique(list.len(), rank, x, y);
}

#[derive(Debug)]
struct Fingerprint {
    chat_name: String,
    chat_type: String,
    sender_id: String,
    sender_nickname: String,
    timestamp: String,
    text: String,
    message_type: String,
    reply_to_message_id: Option<String>,
}

impl View for Fingerprint {
    type V = FingerprintView;

    closed spec fn view(&self) -> FingerprintView {
        FingerprintView {
            chat_name: self.chat_name@,
            chat_type: self.chat_type@,
            sender_id: self.sender_id@,
            sender_nickname: self.sender_nickname@,
            timestamp: self.timestamp@,
            text: self.text@,
            message_type: self.message_type@,
            reply_to_message_id: optional_text(self.reply_to_message_id),
        }
    }
}

fn fingerprint(m: &RawMessage) -> (r: Fingerprint)
    ensures
        r@ == fingerprint_of(*m),
{
    Fingerprint {
        chat_name: m.chat_name.clone(),
        chat_type: m.chat_type.clone(),
        sender_id: m.sender_id.clone(),
        sender_nickname: m.sender_nickname.clone(),
        timestamp: m.timestamp.to_rfc3339(),
        text: m.text.clone(),
        message_type: m.message_type.clone(),
        reply_to_message_id: m.reply_to_message_id.clone(),
    }
}

fn same_optional(a: &Option<String>, b: &Option<String>) -> (r: bool)
    ensures
        r == (optional_text(*a) == optional_text(*b)),
{
    match (a, b) {
        (Some(x), Some(y)) => *x == *y,
        (None, None) => true,
        _ => false,
    }
}

fn same_fingerprint(a: &Fingerprint, b: &Fingerprint) -> (r: bool)
    ensures
        r == (a@ == b@),
{
    a.chat_name == b.chat_name && a.chat_type == b.chat_type && a.sender_id == b.sender_id
        && a.sender_nickname == b.sender_nickname && a.timestamp == b.timestamp && a.text == b.text
        && a.message_type == b.message_type && same_optional(
        &a.reply_to_message_id,
        &b.reply_to_message_id,
    )
}

fn identity_key(m: &RawMessage) -> (r: TextTriple)
    ensures
        r@ == m.identity(),
{
    TextTriple {
        first: m.account_hash.clone(),
        second: m.chat_id.clone(),
        third: m.message_id.clone(),
    }
}

/// The time of a message is written so that it can be ranked.
spec fn is_dated(m: RawMessage) -> bool {
    let t = m.timestamp;
    &&& is_instant(t.unix_seconds(), t.sub_nanos())
    &&& is_dated_text(rfc3339(t.unix_seconds(), t.sub_nanos()), t.unix_seconds(), t.sub_nanos())
}

fn send_order_key(m: &RawMessage) -> (r: TextTriple)
    ensures
        r@ == m.send_key(),
        is_dated(*m),
{
    TextTriple {
        first: m.timestamp.to_rfc3339(),
        second: m.chat_id.clone(),
        third: m.message_id.clone(),
    }
}

fn same_key(a: &TextTriple, b: &TextTriple) -> (r: bool)
    ensures
        r == (a@ == b@),
{
    a.first == b.first && a.second == b.second && a.third == b.third
}

#[derive(Debug)]
struct Seen {
    key: TextTriple,
    fingerprint: Fingerprint,
}

impl Clone for Seen {
    fn clone(&self) -> (r: Self)
        ensures
            r == *self,
    {
        Seen {
            key: TextTriple {
                first: self.key.first.clone(),
                second: self.key.second.clone(),
                third: self.key.third.clone(),
            },
            fingerprint: Fingerprint {
                chat_name: self.fingerprint.chat_name.clone(),
                chat_type: self.fingerprint.chat_type.clone(),
                sender_id: self.fingerprint.sender_id.clone(),
                sender_nickname: self.fingerprint.sender_nickname.clone(),
                timestamp: self.fingerprint.timestamp.clone(),
                text: self.fingerprint.text.clone(),
                message_type: self.fingerprint.message_type.clone(),
                reply_to_message_id: self.fingerprint.reply_to_message_id.clone(),
            },
        }
    }
}

spec fn keys_ascend(table: Seq<Seen>) -> bool {
    forall|a: int, b: int|
        0 <= a < b < table.len() ==> {
            &&& triple_le((#[trigger] table[a]).key@, (#[trigger] table[b]).key@)
            &&& table[a].key@ != table[b].key@
        }
}

spec fn table_map(table: Seq<Seen>) -> Map<TextKey, FingerprintView>
    decreases table.len(),
{
    if table.len() == 0 {
        Map::empty()
    } else {
        table_map(table.drop_last()).insert(table.last().key@, table.last().fingerprint@)
    }
}

proof fn lemma_table_map(table: Seq<Seen>)
    requires
        keys_ascend(table),
    ensures
        forall|i: int|
            0 <= i < table.len() ==> {
                &&& table_map(table).contains_key((#[trigger] table[i]).key@)
                &&& table_map(table)[table[i].key@] == table[i].fingerprint@
            },
        forall|k: TextKey| #[trigger]
            table_map(table).contains_key(k) ==> exists|i: int|
                0 <= i < table.len() && (#[trigger] table[i]).key@ == k,
        table_map(table).dom().finite(),
        table_map(table).dom().len() == table.len(),
    decreases table.len(),
{
    if table.len() > 0 {
        let front = table.drop_last();
        lemma_table_map(front);
        let last = table.last();
        assert(!table_map(front).contains_key(last.key@)) by {
            if table_map(front).contains_key(last.key@) {
                let i = choose|i: int|
                    0 <= i < front.len() && (#[trigger] front[i]).key@ == last.key@;
                assert(table[i].key@ == table[table.len() - 1].key@);
            }
        }
        assert forall|i: int| 0 <= i < table.len() implies {
            &&& table_map(table).contains_key((#[trigger] table[i]).key@)
            &&& table_map(table)[table[i].key@] == table[i].fingerprint@
        } by {
            if i < front.len() {
                assert(front[i] == table[i]);
                assert(table[i].key@ != table[table.len() - 1].key@);
            }
        }
        assert forall|k: TextKey| #[trigger] table_map(table).contains_key(k) implies exists|i: int|
            0 <= i < table.len() && (#[trigger] table[i]).key@ == k by {
            if k == last.key@ {
                assert(table[table.len() - 1].key@ == k);
            } else {
                assert(table_map(front).contains_key(k));
                let i = choose|i: int| 0 <= i < front.len() && (#[trigger] front[i]).key@ == k;
                assert(table[i].key@ == k);
            }
        }
        assert(table_map(table).dom() =~= table_map(front).dom().insert(last.key@));
    }
}

proof fn lemma_seen_in(messages: Seq<RawMessage>)
    ensures
        forall|i: int|
            0 <= i < messages.len() ==> seen_in(messages).contains_key(
                (#[trigger] messages[i]).identity(),
            ),
        forall|k: TextKey| #[trigger]
            seen_in(messages).contains_key(k) ==> exists|i: int|
                0 <= i < messages.len() && (#[trigger] messages[i]).identity() == k,
    decreases messages.len(),
{
    if messages.len() > 0 {
        let front = messages.drop_last();
        lemma_seen_in(front);
        assert forall|i: int| 0 <= i < messages.len() implies seen_in(messages).contains_key(
            (#[trigger] messages[i]).identity(),
        ) by {
            if i < front.len() {
                assert(front[i] == messages[i]);
            }
        }
        assert forall|k: TextKey| #[trigger] seen_in(messages).contains_key(
            k,
        ) implies exists|i: int|
            0 <= i < messages.len() && (#[trigger] messages[i]).identity() == k by {
            if k == messages.last().identity() {
                assert(messages[messages.len() - 1].identity() == k);
            } else {
                assert(seen_in(front).contains_key(k));
                let i = choose|i: int|
                    0 <= i < front.len() && (#[trigger] front[i]).identity() == k;
                assert(messages[i].identity() == k);
            }
        }
    }
}

proof fn lemma_seen_in_last(messages: Seq<RawMessage>, i: int)
    requires
        0 <= i < messages.len(),
        forall|j: int|
            i < j < messages.len() ==> (#[trigger] messages[j]).identity()
                != messages[i].identity(),
    ensures
        seen_in(messages)[messages[i].identity()] == fingerprint_of(messages[i]),
    decreases messages.len(),
{
    if i < messages.len() - 1 {
        lemma_seen_in_last(messages.drop_last(), i);
        assert(messages[messages.len() - 1].identity() != messages[i].identity());
        lemma_seen_in(messages.drop_last());
    }
}

fn find(table: &Vec<Seen>, key: &TextTriple) -> (r: Option<usize>)
    requires
        keys_ascend(table@),
    ensures
        match r {
            Some(i) => i < table@.len() && table@[i as int].key@ == key@,
            None => forall|i: int| 0 <= i < table@.len() ==> (#[trigger] table@[i]).key@ != key@,
        },
{
    let mut lo: usize = 0;
    let mut hi: usize = table.len();
    while lo < hi
        invariant
            lo <= hi <= table.len(),
            keys_ascend(table@),
            forall|i: int| 0 <= i < lo ==> (#[trigger] table@[i]).key@ != key@,
            forall|i: int| hi <= i < table@.len() ==> (#[trigger] table@[i]).key@ != key@,
        decreases hi - lo,
    {
        let mid: usize = lo + (hi - lo) / 2;
        let ghost pivot = table@[mid as int].key@;
        if same_key(&table[mid].key, key) {
            return Some(mid);
        }
        if table[mid].key.ranks_no_later(key) {
            assert forall|i: int| 0 <= i < mid + 1 implies (#[trigger] table@[i]).key@ != key@ by {
                if table@[i].key@ == key@ && i < mid {
                    assert(triple_le(table@[i].key@, table@[mid as int].key@));
                    lemma_triple_antisymmetric(pivot, key@);
                }
            }
            lo = mid + 1;
        } else {
            assert forall|i: int| mid <= i < table@.len() implies (#[trigger] table@[i]).key@
                != key@ by {
                if table@[i].key@ == key@ && i > mid {
                    assert(triple_le(table@[mid as int].key@, table@[i].key@));
                }
            }
            hi = mid;
        }
    }
    None
}

fn contained(a: &Vec<Seen>, b: &Vec<Seen>) -> (r: bool)
    requires
        keys_ascend(a@),
        keys_ascend(b@),
    ensures
        r == (forall|k: TextKey| #[trigger]
            table_map(a@).contains_key(k) ==> table_map(b@).contains_key(k) && table_map(b@)[k]
                == table_map(a@)[k]),
{
    proof {
        lemma_table_map(a@);
        lemma_table_map(b@);
    }
    let ghost ma = table_map(a@);
    let ghost mb = table_map(b@);
    for i in 0..a.len()
        invariant
            keys_ascend(a@),
            keys_ascend(b@),
            ma == table_map(a@),
            mb == table_map(b@),
            forall|j: int|
                0 <= j < i ==> mb.contains_key((#[trigger] a@[j]).key@) && mb[a@[j].key@]
                    == a@[j].fingerprint@,
    {
        proof {
            lemma_table_map(a@);
            lemma_table_map(b@);
        }
        let ghost k = a@[i as int].key@;
        match find(b, &a[i].key) {
            Some(j) => {
                assert(b@[j as int].key@ == k);
                if !same_fingerprint(&a[i].fingerprint, &b[j].fingerprint) {
                    assert(ma.contains_key(k) && mb[k] != ma[k]);
                    return false;
                }
            },
            None => {
                assert(ma.contains_key(k) && !mb.contains_key(k)) by {
                    if mb.contains_key(k) {
                        let j = choose|j: int| 0 <= j < b@.len() && (#[trigger] b@[j]).key@ == k;
                        assert(b@[j].key@ != k);
                    }
                }
                return false;
            },
        }
    }
    proof {
        assert forall|k: TextKey| #[trigger] ma.contains_key(k) implies mb.contains_key(k) && mb[k]
            == ma[k] by {
            let i = choose|i: int| 0 <= i < a@.len() && (#[trigger] a@[i]).key@ == k;
            assert(mb.contains_key(a@[i].key@));
        }
    }
    true
}

fn tabulate(messages: &[RawMessage]) -> (table: Vec<Seen>)
    ensures
        keys_ascend(table@),
        table_map(table@) == seen_in(messages@),
{
    let mut keys: Vec<TextTriple> = Vec::new();
    for i in 0..messages.len()
        invariant
            keys.len() == i,
            forall|j: int| 0 <= j < i ==> (#[trigger] keys@[j])@ == messages@[j].identity(),
    {
        keys.push(identity_key(&messages[i]));
    }
    let order: Vec<usize> = stable_order(&keys);
    let ghost rank = rank_of(keys@);
    let n: usize = order.len();
    let mut table: Vec<Seen> = Vec::new();
    let mut k: usize = 0;
    while k < n
        invariant
            n == order.len() == keys.len() == messages.len(),
            k <= n,
            rank == rank_of(keys@),
            is_stable_order(n as nat, rank, order@),
            forall|j: int| 0 <= j < n ==> (#[trigger] keys@[j])@ == messages@[j].identity(),
            keys_ascend(table@),
            forall|e: int|
                #![trigger table@[e]]
                0 <= e < table.len() ==> {
                    &&& seen_in(messages@).contains_key(table@[e].key@)
                    &&& seen_in(messages@)[table@[e].key@] == table@[e].fingerprint@
                    &&& k < n ==> triple_le(table@[e].key@, keys@[order@[k as int] as int]@)
                        && table@[e].key@ != keys@[order@[k as int] as int]@
                },
            forall|j: int|
                #![trigger order@[j]]
                0 <= j < k ==> {
                    ||| exists|e: int|
                        0 <= e < table.len() && (#[trigger] table@[e]).key@
                            == keys@[order@[j] as int]@
                    ||| k < n && keys@[order@[k as int] as int]@ == keys@[order@[j] as int]@
                },
        decreases n - k,
    {
        let here: usize = order[k];
        let ghost hk = keys@[here as int]@;
        let repeated: bool = if k + 1 < n {
            same_key(&keys[here], &keys[order[k + 1]])
        } else {
            false
        };
        proof {
            lemma_seen_in(messages@);
            if k + 1 < n {
                assert(precedes(rank, order@[k as int], order@[k + 1]));
                assert(rank(order@[k as int] as int, order@[k + 1] as int));
            }
        }
        let ghost before = table@;
        if !repeated {
            proof {
                assert forall|p: int| here < p < n implies (#[trigger] messages@[p]).identity()
                    != messages@[here as int].identity() by {
                    if messages@[p].identity() == messages@[here as int].identity() {
                        assert(order@.contains(p as usize));
                        let b = choose|b: int| 0 <= b < order@.len() && order@[b] == p as usize;
                        assert(keys@[p]@ == hk);
                        if b < k {
                            assert(precedes(rank, order@[b], order@[k as int]));
                            lemma_triple_total(hk, hk);
                            assert(rank(here as int, p));
                        } else if b > k {
                            let next = order@[k + 1];
                            if b > k + 1 {
                                assert(precedes(rank, order@[k + 1], order@[b]));
                                assert(rank(next as int, p));
                            } else {
                                lemma_triple_total(hk, hk);
                            }
                            assert(triple_le(keys@[next as int]@, hk));
                            assert(triple_le(hk, keys@[next as int]@));
                            lemma_triple_antisymmetric(hk, keys@[next as int]@);
                        }
                    }
                }
                lemma_seen_in_last(messages@, here as int);
                assert(messages@[here as int].identity() == hk);
            }
            let item: Seen = Seen {
                key: identity_key(&messages[here]),
                fingerprint: fingerprint(&messages[here]),
            };
            table.push(item);
            proof {
                assert(table@[before.len() as int].key@ == hk);
                assert forall|e: int| #![trigger table@[e]] 0 <= e < table.len() implies {
                    &&& seen_in(messages@).contains_key(table@[e].key@)
                    &&& seen_in(messages@)[table@[e].key@] == table@[e].fingerprint@
                    &&& k + 1 < n ==> triple_le(table@[e].key@, keys@[order@[k + 1] as int]@)
                        && table@[e].key@ != keys@[order@[k + 1] as int]@
                } by {
                    if e < before.len() {
                        assert(table@[e] == before[e]);
                        if k + 1 < n {
                            let nk = keys@[order@[k + 1] as int]@;
                            lemma_triple_transitive(before[e].key@, hk, nk);
                            if before[e].key@ == nk {
                                lemma_triple_antisymmetric(hk, nk);
                            }
                        }
                    } else {
                        assert(messages@[here as int].identity() == hk);
                    }
                }
                assert forall|j: int| #![trigger order@[j]] 0 <= j < k + 1 implies {
                    ||| exists|e: int|
                        0 <= e < table.len() && (#[trigger] table@[e]).key@
                            == keys@[order@[j] as int]@
                    ||| k + 1 < n && keys@[order@[k + 1] as int]@ == keys@[order@[j] as int]@
                } by {
                    if j == k || hk == keys@[order@[j] as int]@ {
                        assert(table@[before.len() as int].key@ == hk);
                    } else {
                        let e = choose|e: int|
                            0 <= e < before.len() && (#[trigger] before[e]).key@
                                == keys@[order@[j] as int]@;
                        assert(table@[e].key@ == keys@[order@[j] as int]@);
                    }
                }
            }
        }
        k = k + 1;
    }
    proof {
        lemma_seen_in(messages@);
        lemma_table_map(table@);
        let built = table_map(table@);
        let wanted = seen_in(messages@);
        assert forall|key: TextKey| built.contains_key(key) == wanted.contains_key(key) by {
            if wanted.contains_key(key) {
                let p = choose|p: int|
                    0 <= p < messages@.len() && (#[trigger] messages@[p]).identity() == key;
                assert(order@.contains(p as usize));
                let j = choose|j: int| 0 <= j < order@.len() && order@[j] == p as usize;
                assert(keys@[p]@ == key);
                let e = choose|e: int|
                    0 <= e < table.len() && (#[trigger] table@[e]).key@ == keys@[order@[j] as int]@;
                assert(built.contains_key(table@[e].key@));
            }
            if built.contains_key(key) {
                let e = choose|e: int| 0 <= e < table.len() && (#[trigger] table@[e]).key@ == key;
                assert(wanted.contains_key(table@[e].key@));
            }
        }
        assert forall|key: TextKey| built.contains_key(key) implies built[key] == wanted[key] by {
            let e = choose|e: int| 0 <= e < table.len() && (#[trigger] table@[e]).key@ == key;
            assert(built[table@[e].key@] == table@[e].fingerprint@);
        }
        assert(built =~= wanted);
    }
    table
}

/// The text of an optional filter.
pub open spec fn filter_text(filter: Option<&str>) -> Option<Seq<char>> {
    match filter {
        Some(text) => Some(text@),
        None => None,
    }
}

spec fn records(
    list: Seq<Announcement>,
    kinds: Seq<WatchMessageChange>,
    places: Seq<usize>,
    messages: Seq<RawMessage>,
) -> bool {
    &&& kinds.len() == list.len()
    &&& places.len() == list.len()
    &&& forall|j: int|
        0 <= j < list.len() ==> {
            &&& places[j] < messages.len()
            &&& (#[trigger] list[j]).change == kinds[j]
            &&& list[j].message == messages[places[j] as int]
        }
}

spec fn ranks_by(list: Seq<Announcement>, keys: Seq<TextTriple>) -> bool {
    &&& keys.len() == list.len()
    &&& forall|j: int|
        0 <= j < list.len() ==> keys[j]@ == (#[trigger] list[j]).message.send_key()
}

proof fn lemma_in_time_order(
    events: Seq<WatchEvent>,
    poll: u64,
    list: Seq<Announcement>,
    order: Seq<usize>,
)
    requires
        is_stable_order(list.len(), send_rank(list), order),
        forall|j: int| 0 <= j < list.len() ==> is_dated((#[trigger] list[j]).message),
        events == order.map_values(|i: usize| message_event(poll, list[i as int])),
    ensures
        is_in_time_order(events),
{
    let rank = send_rank(list);
    assert forall|i: int, j: int|
        0 <= i <= j < events.len() && (#[trigger] events[i]) is Message && (
        #[trigger] events[j]) is Message && has_plain_year(
            events[i]->message.timestamp.unix_seconds(),
        ) && has_plain_year(
            events[j]->message.timestamp.unix_seconds(),
        ) implies events[i]->message.timestamp.at_or_before(events[j]->message.timestamp) by {
        let a = list[order[i] as int].message;
        let b = list[order[j] as int].message;
        assert(events[i]->message == a && events[j]->message == b);
        if i < j {
            assert(precedes(rank, order[i], order[j]));
            assert(triple_le(a.send_key(), b.send_key()));
            let x = rfc3339(a.timestamp.unix_seconds(), a.timestamp.sub_nanos());
            let y = rfc3339(b.timestamp.unix_seconds(), b.timestamp.sub_nanos());
            if x == y {
                crate::text::lemma_text_total(x, y);
            }
            assert(text_le(x, y));
            assert(is_dated(a) && is_dated(b));
        }
    }
}

/// The messages of the last poll, by which the next poll is judged.
#[derive(Debug)]
pub struct WatchSnapshot {
    initialized: bool,
    changed: bool,
    table: Vec<Seen>,
}

impl Default for WatchSnapshot {
    fn default() -> (r: Self)
        ensures
            !r.is_initialized(),
            !r.has_changed(),
            r.seen() == Map::<TextKey, FingerprintView>::empty(),
    {
        WatchSnapshot { initialized: false, changed: false, table: Vec::new() }
    }
}

impl Clone for WatchSnapshot {
    fn clone(&self) -> (r: Self)
        ensures
            r.is_initialized() == self.is_initialized(),
            r.has_changed() == self.has_changed(),
            r.seen() == self.seen(),
    {
        proof {
            use_type_invariant(self);
        }
        let mut table: Vec<Seen> = Vec::new();
        for i in 0..self.table.len()
            invariant
                table@ =~= self.table@.take(i as int),
        {
            table.push(self.table[i].clone());
        }
        assert(table@ =~= self.table@);
        WatchSnapshot { initialized: self.initialized, changed: self.changed, table }
    }
}

impl WatchSnapshot {
    #[verifier::type_invariant]
    spec fn well_formed(self) -> bool {
        keys_ascend(self.table@)
    }

    /// Whether there was a poll yet.
    pub closed spec fn is_initialized(self) -> bool {
        self.initialized
    }

    /// Whether the last poll was the first or differed from the one before.
    pub closed spec fn has_changed(self) -> bool {
        self.changed
    }

    /// The fingerprints of the last poll.
    pub closed spec fn seen(self) -> Map<TextKey, FingerprintView> {
        table_map(self.table@)
    }

    /// Takes in a poll of the whole source and says what to announce: the messages that pass the
    /// filter and are new or edited, in send order. The filter hides events only; the snapshot
    /// and `source_changed` follow the whole source.
    pub fn diff(
        &mut self,
        messages: &[RawMessage],
        poll: u64,
        replay_existing: bool,
        chat_filter: Option<&str>,
    ) -> (events: Vec<WatchEvent>)
        ensures
            final(self).is_initialized(),
            final(self).seen() == seen_in(messages@),
            final(self).has_changed() == (!old(self).is_initialized() || old(self).seen()
                != seen_in(messages@)),
            announces(
                events@,
                poll,
                announced(
                    old(self).seen(),
                    !old(self).is_initialized(),
                    replay_existing,
                    filter_text(chat_filter),
                    messages@,
                ),
            ),
            is_in_time_order(events@),
    {
        proof {
            use_type_invariant(&*self);
        }
        let initial: bool = !self.initialized;
        let ghost known = table_map(self.table@);
        let ghost filter = filter_text(chat_filter);
        proof {
            lemma_table_map(self.table@);
        }
        let next: Vec<Seen> = tabulate(messages);
        let mut keys: Vec<TextTriple> = Vec::new();
        let mut kinds: Vec<WatchMessageChange> = Vec::new();
        let mut places: Vec<usize> = Vec::new();
        let ghost mut list: Seq<Announcement> = Seq::empty();
        for i in 0..messages.len()
            invariant
                keys_ascend(self.table@),
                known == table_map(self.table@),
                filter == filter_text(chat_filter),
                list == announced(known, initial, replay_existing, filter, messages@.take(i as int)),
                records(list, kinds@, places@, messages@),
                ranks_by(list, keys@),
                forall|j: int| 0 <= j < list.len() ==> is_dated((#[trigger] list[j]).message),
        {
            let ghost front = messages@.take(i + 1);
            assert(front.drop_last() =~= messages@.take(i as int));
            assert(front.last() == messages@[i as int]);
            let key: TextTriple = identity_key(&messages[i]);
            let shown: bool = match chat_filter {
                Some(chat_id) => same_text(chat_id, messages[i].chat_id.as_str()),
                None => true,
            };
            if shown {
                proof {
                    lemma_table_map(self.table@);
                }
                let change: Option<WatchMessageChange> = match find(&self.table, &key) {
                    None => if !initial {
                        Some(WatchMessageChange::Inserted)
                    } else if replay_existing {
                        Some(WatchMessageChange::Existing)
                    } else {
                        None
                    },
                    Some(at) => if same_fingerprint(
                        &self.table[at].fingerprint,
                        &fingerprint(&messages[i]),
                    ) {
                        None
                    } else {
                        Some(WatchMessageChange::Updated)
                    },
                };
                assert(change == change_of(known, initial, replay_existing, messages@[i as int]));
                match change {
                    Some(change) => {
                        keys.push(send_order_key(&messages[i]));
                        kinds.push(change);
                        places.push(i);
                        proof {
                            list = list.push(Announcement { change, message: messages@[i as int] });
                        }
                    },
                    None => {},
                }
            }
        }
        assert(messages@.take(messages@.len() as int) =~= messages@);
        let unchanged: bool = contained(&self.table, &next) && contained(&next, &self.table);
        proof {
            assert(unchanged == (known == table_map(next@))) by {
                if unchanged {
                    assert(known =~= table_map(next@));
                }
            }
        }
        self.changed = initial || !unchanged;
        self.table = next;
        self.initialized = true;
        let order: Vec<usize> = stable_order(&keys);
        proof {
            assert forall|i: int, j: int|
                0 <= i < list.len() && 0 <= j < list.len() implies #[trigger] rank_of(keys@)(i, j)
                == send_rank(list)(i, j) by {
                assert(keys@[i]@ == list[i].message.send_key());
                assert(keys@[j]@ == list[j].message.send_key());
            }
            lemma_same_rank_same_order(list.len(), rank_of(keys@), send_rank(list), order@);
        }
        let mut events: Vec<WatchEvent> = Vec::new();
        for i in 0..order.len()
            invariant
                is_stable_order(list.len(), send_rank(list), order@),
                records(list, kinds@, places@, messages@),
                events.len() == i,
                forall|j: int|
                    0 <= j < i ==> #[trigger] events@[j] == message_event(
                        poll,
                        list[order@[j] as int],
                    ),
        {
            let at: usize = order[i];
            assert(at < list.len());
            let ghost item = list[at as int];
            events.push(
                WatchEvent::Message {
                    schema_version: WATCH_EVENT_SCHEMA_VERSION,
                    change: kinds[at],
                    poll,
                    message: messages[places[at]].clone(),
                },
            );
        }
        assert(events@ =~= order@.map_values(|i: usize| message_event(poll, list[i as int])));
        proof {
            lemma_in_time_order(events@, poll, list, order@);
        }
        events
    }

    /// How many messages the last poll held, counting each identity once.
    pub fn seen_count(&self) -> (r: usize)
        ensures
            r == self.seen().dom().len(),
    {
        proof {
            use_type_invariant(self);
            lemma_table_map(self.table@);
        }
        self.table.len()
    }

    /// Whether the last poll was the first or differed from the one before.
    pub fn source_changed(&self) -> (r: bool)
        ensures
            r == self.has_changed(),
    {
        self.changed
    }
}

/// Two messages of one poll with the same identity are alike.
pub open spec fn is_consistent(messages: Seq<RawMessage>) -> bool {
    forall|i: int, j: int|
        0 <= i < messages.len() && 0 <= j < messages.len() && (#[trigger] messages[i]).identity()
            == (#[trigger] messages[j]).identity() ==> fingerprint_of(messages[i])
            == fingerprint_of(messages[j])
}

/// An identical poll is redundant: it announces nothing, whatever the filter.
pub proof fn lemma_repeated_poll_is_quiet(
    messages: Seq<RawMessage>,
    replay_existing: bool,
    filter: Option<Seq<char>>,
)
    requires
        is_consistent(messages),
    ensures
        announced(seen_in(messages), false, replay_existing, filter, messages).len() == 0,
{
    let known = seen_in(messages);
    lemma_seen_in(messages);
    assert forall|i: int| 0 <= i < messages.len() implies known[(
    #[trigger] messages[i]).identity()] == fingerprint_of(messages[i]) by {
        lemma_seen_value(messages, i);
    }
    lemma_quiet_front(known, messages, replay_existing, filter, messages.len());
    assert(messages.take(messages.len() as int) =~= messages);
}

proof fn lemma_quiet_front(
    known: Map<TextKey, FingerprintView>,
    messages: Seq<RawMessage>,
    replay_existing: bool,
    filter: Option<Seq<char>>,
    n: nat,
)
    requires
        n <= messages.len(),
        forall|i: int|
            0 <= i < messages.len() ==> known.contains_key((#[trigger] messages[i]).identity())
                && known[messages[i].identity()] == fingerprint_of(messages[i]),
    ensures
        announced(known, false, replay_existing, filter, messages.take(n as int)).len() == 0,
    decreases n,
{
    if n > 0 {
        lemma_quiet_front(known, messages, replay_existing, filter, (n - 1) as nat);
        assert(messages.take(n as int).drop_last() =~= messages.take(n - 1));
        assert(messages.take(n as int).last() == messages[n - 1]);
    }
}

proof fn lemma_seen_value(messages: Seq<RawMessage>, i: int)
    requires
        is_consistent(messages),
        0 <= i < messages.len(),
    ensures
        seen_in(messages)[messages[i].identity()] == fingerprint_of(messages[i]),
    decreases messages.len(),
{
    let front = messages.drop_last();
    let last = messages.last();
    if messages[i].identity() == last.identity() {
        assert(messages[messages.len() - 1].identity() == messages[i].identity());
    } else {
        assert(is_consistent(front)) by {
            assert forall|a: int, b: int|
                0 <= a < front.len() && 0 <= b < front.len() && (#[trigger] front[a]).identity()
                    == (#[trigger] front[b]).identity() implies fingerprint_of(front[a])
                == fingerprint_of(front[b]) by {
                assert(messages[a].identity() == messages[b].identity());
            }
        }
        lemma_seen_value(front, i);
        assert(front[i] == messages[i]);
    }
}

/// The first poll is quiet unless a replay is asked for; a replay announces every message.
pub proof fn lemma_first_poll(messages: Seq<RawMessage>, filter: Option<Seq<char>>)
    ensures
        announced(Map::empty(), true, false, filter, messages).len() == 0,
        announced(Map::empty(), true, true, None, messages) == messages.map_values(
            |m: RawMessage| Announcement { change: WatchMessageChange::Existing, message: m },
        ),
    decreases messages.len(),
{
    if messages.len() > 0 {
        lemma_first_poll(messages.drop_last(), filter);
    }
    assert(announced(Map::empty(), true, true, None, messages) =~= messages.map_values(
        |m: RawMessage| Announcement { change: WatchMessageChange::Existing, message: m },
    ));
}

/// A chat filter hides the events of other chats and changes nothing else.
pub proof fn lemma_filter_only_hides(
    known: Map<TextKey, FingerprintView>,
    initial: bool,
    replay_existing: bool,
    chat: Seq<char>,
    messages: Seq<RawMessage>,
)
    ensures
        announced(known, initial, replay_existing, Some(chat), messages) == announced(
            known,
            initial,
            replay_existing,
            None,
            messages,
        ).filter(|item: Announcement| item.message.chat_id@ == chat),
    decreases messages.len(),
{
    reveal(Seq::filter);
    let of_chat = |item: Announcement| item.message.chat_id@ == chat;
    let all = announced(known, initial, replay_existing, None, messages);
    if messages.len() > 0 {
        lemma_filter_only_hides(known, initial, replay_existing, chat, messages.drop_last());
        let m = messages.last();
        if change_of(known, initial, replay_existing, m) is Some {
            assert(all.drop_last() =~= announced(
                known,
                initial,
                replay_existing,
                None,
                messages.drop_last(),
            ));
        }
    } else {
        assert(all.filter(of_chat) =~= Seq::empty());
    }
}

/// The places among the first `n` of a list whose message is of a chat.
spec fn places_of_chat(list: Seq<Announcement>, chat: Seq<char>, n: nat) -> Seq<usize>
    decreases n,
{
    if n == 0 {
        Seq::empty()
    } else {
        let front = places_of_chat(list, chat, (n - 1) as nat);
        if list[n - 1].message.chat_id@ == chat {
            front.push((n - 1) as usize)
        } else {
            front
        }
    }
}

proof fn lemma_places_of_chat(list: Seq<Announcement>, chat: Seq<char>, n: nat)
    requires
        n <= list.len() <= usize::MAX,
    ensures
        ({
            let places = places_of_chat(list, chat, n);
            &&& places.len() <= n
            &&& forall|a: int| 0 <= a < places.len() ==> (#[trigger] places[a]) < n
            &&& forall|a: int, b: int|
                0 <= a < b < places.len() ==> (#[trigger] places[a]) < (#[trigger] places[b])
            &&& forall|i: usize| i < n ==> #[trigger] places.contains(i) == (
            list[i as int].message.chat_id@ == chat)
            &&& list.take(n as int).filter(|item: Announcement| item.message.chat_id@ == chat)
                == places.map_values(|i: usize| list[i as int])
        }),
    decreases n,
{
    reveal(Seq::filter);
    let of_chat = |item: Announcement| item.message.chat_id@ == chat;
    let at = |i: usize| list[i as int];
    let places = places_of_chat(list, chat, n);
    if n == 0 {
        assert(list.take(0).filter(of_chat) =~= places.map_values(at));
    } else {
        lemma_places_of_chat(list, chat, (n - 1) as nat);
        let front = places_of_chat(list, chat, (n - 1) as nat);
        let last = (n - 1) as usize;
        assert(list.take(n as int).drop_last() =~= list.take(n - 1));
        if of_chat(list[n - 1]) {
            assert(places.map_values(at) =~= front.map_values(at).push(list[n - 1]));
        }
        assert forall|i: usize| i < n implies #[trigger] places.contains(i) == (
        list[i as int].message.chat_id@ == chat) by {
            if i < n - 1 {
                assert(front.contains(i) == of_chat(list[i as int]));
                if front.contains(i) {
                    let k = choose|k: int| 0 <= k < front.len() && front[k] == i;
                    assert(places[k] == i);
                }
                if places.contains(i) {
                    let k = choose|k: int| 0 <= k < places.len() && places[k] == i;
                    assert(k < front.len());
                    assert(front[k] == i);
                }
            } else if of_chat(list[n - 1]) {
                assert(places[places.len() - 1] == i);
            } else if places.contains(i) {
                let k = choose|k: int| 0 <= k < places.len() && places[k] == i;
                assert(front[k] < n - 1);
            }
        }
    }
}

proof fn lemma_announced_len(
    known: Map<TextKey, FingerprintView>,
    initial: bool,
    replay_existing: bool,
    filter: Option<Seq<char>>,
    messages: Seq<RawMessage>,
)
    ensures
        announced(known, initial, replay_existing, filter, messages).len() <= messages.len(),
    decreases messages.len(),
{
    if messages.len() > 0 {
        lemma_announced_len(known, initial, replay_existing, filter, messages.drop_last());
    }
}

proof fn lemma_filter_of_mapped(
    order: Seq<usize>,
    to: spec_fn(usize) -> WatchEvent,
    shown: spec_fn(WatchEvent) -> bool,
    keeps: spec_fn(usize) -> bool,
)
    requires
        forall|a: int|
            0 <= a < order.len() ==> shown(to(#[trigger] order[a])) == keeps(order[a]),
    ensures
        order.map_values(to).filter(shown) == order.filter(keeps).map_values(to),
    decreases order.len(),
{
    reveal(Seq::filter);
    if order.len() > 0 {
        let front = order.drop_last();
        assert forall|a: int| 0 <= a < front.len() implies shown(to(#[trigger] front[a])) == keeps(
            front[a],
        ) by {
            assert(front[a] == order[a]);
        }
        lemma_filter_of_mapped(front, to, shown, keeps);
        assert(order.map_values(to).drop_last() =~= front.map_values(to));
        let last = order[order.len() - 1];
        assert(shown(to(last)) == keeps(last));
        assert(front.filter(keeps).push(last).map_values(to) =~= front.filter(keeps).map_values(
            to,
        ).push(to(last)));
    }
    assert(order.map_values(to).filter(shown) =~= order.filter(keeps).map_values(to));
}

/// The event announces a message of the chat.
pub open spec fn is_of_chat(event: WatchEvent, chat: Seq<char>) -> bool {
    event is Message && event->message.chat_id@ == chat
}

/// A poll with a chat filter announces the events that the same poll announces without one,
/// except for those of other chats: the same messages with the same changes in the same order.
pub proof fn lemma_filter_hides_events(
    all: Seq<WatchEvent>,
    of_chat: Seq<WatchEvent>,
    poll: u64,
    known: Map<TextKey, FingerprintView>,
    initial: bool,
    replay_existing: bool,
    chat: Seq<char>,
    messages: Seq<RawMessage>,
)
    requires
        messages.len() <= usize::MAX,
        announces(all, poll, announced(known, initial, replay_existing, None, messages)),
        announces(of_chat, poll, announced(known, initial, replay_existing, Some(chat), messages)),
    ensures
        of_chat == all.filter(|event: WatchEvent| is_of_chat(event, chat)),
{
    let list = announced(known, initial, replay_existing, None, messages);
    let part_list = announced(known, initial, replay_existing, Some(chat), messages);
    lemma_announced_len(known, initial, replay_existing, None, messages);
    lemma_filter_only_hides(known, initial, replay_existing, chat, messages);
    lemma_places_of_chat(list, chat, list.len());
    assert(list.take(list.len() as int) =~= list);
    let places = places_of_chat(list, chat, list.len());
    assert(part_list == places.map_values(|i: usize| list[i as int]));
    let to = |i: usize| message_event(poll, list[i as int]);
    let rank = send_rank(list);
    let part_rank = send_rank(part_list);
    let whole = choose|order: Seq<usize>|
        #![trigger is_stable_order(list.len(), rank, order)]
        {
            &&& is_stable_order(list.len(), rank, order)
            &&& all == order.map_values(|i: usize| message_event(poll, list[i as int]))
        };
    let part = choose|order: Seq<usize>|
        #![trigger is_stable_order(part_list.len(), part_rank, order)]
        {
            &&& is_stable_order(part_list.len(), part_rank, order)
            &&& of_chat == order.map_values(|i: usize| message_event(poll, part_list[i as int]))
        };
    crate::order::lemma_sorted_part(list.len(), rank, whole, places, part_rank, part);
    let keeps = |i: usize| places.contains(i);
    let shown = |event: WatchEvent| is_of_chat(event, chat);
    lemma_filter_of_mapped(whole, to, shown, keeps);
    assert(all =~= whole.map_values(to));
    assert(of_chat =~= part.map_values(|k: usize| places[k as int]).map_values(to));
}

/// Both are the same message: one account, one chat, one message id.
pub open spec fn same_message(a: RawMessage, b: RawMessage) -> bool {
    &&& a.account_hash@ == b.account_hash@
    &&& a.chat_id@ == b.chat_id@
    &&& a.message_id@ == b.message_id@
}

/// Both say the same, of the same time, by the same sender, in a chat that is shown alike.
pub open spec fn same_content(a: RawMessage, b: RawMessage) -> bool {
    &&& a.text@ == b.text@
    &&& a.message_type@ == b.message_type@
    &&& a.sender_id@ == b.sender_id@
    &&& a.sender_nickname@ == b.sender_nickname@
    &&& a.chat_name@ == b.chat_name@
    &&& a.chat_type@ == b.chat_type@
    &&& optional_text(a.reply_to_message_id) == optional_text(b.reply_to_message_id)
    &&& rfc3339(a.timestamp.unix_seconds(), a.timestamp.sub_nanos()) == rfc3339(
        b.timestamp.unix_seconds(),
        b.timestamp.sub_nanos(),
    )
}

/// A fingerprint tells messages apart by every field: where two fingerprints are equal, the whole
/// text is, and so is each of the other fields that can be edited.
pub proof fn lemma_fingerprint_tells_fields_apart(a: RawMessage, b: RawMessage)
    ensures
        fingerprint_of(a) == fingerprint_of(b) ==> a.text@ == b.text@ && a.chat_name@
            == b.chat_name@ && a.chat_type@ == b.chat_type@ && a.sender_id@ == b.sender_id@
            && a.sender_nickname@ == b.sender_nickname@ && a.message_type@ == b.message_type@
            && optional_text(a.reply_to_message_id) == optional_text(b.reply_to_message_id)
            && rfc3339(a.timestamp.unix_seconds(), a.timestamp.sub_nanos()) == rfc3339(
            b.timestamp.unix_seconds(),
            b.timestamp.sub_nanos(),
        ),
        fingerprint_of(a) == fingerprint_of(b) <==> same_content(a, b),
        a.text@ != b.text@ ==> fingerprint_of(a) != fingerprint_of(b),
{
}

/// Two messages have one identity exactly where account, chat and message id are the same.
pub proof fn lemma_identity_is_account_chat_and_message(a: RawMessage, b: RawMessage)
    ensures
        a.identity() == b.identity() <==> a.account_hash@ == b.account_hash@ && a.chat_id@
            == b.chat_id@ && a.message_id@ == b.message_id@,
        a.identity() == b.identity() <==> same_message(a, b),
{
}

/// The message of `before` at `p` is the last one there that is the same as `m`.
pub open spec fn last_seen_at(before: Seq<RawMessage>, p: int, m: RawMessage) -> bool {
    &&& 0 <= p < before.len()
    &&& same_message(before[p], m)
    &&& forall|q: int| p < q < before.len() ==> !same_message(#[trigger] before[q], m)
}

/// None of the messages of `before` is the same as `m`.
pub open spec fn never_seen(before: Seq<RawMessage>, m: RawMessage) -> bool {
    forall|q: int| 0 <= q < before.len() ==> !same_message(#[trigger] before[q], m)
}

proof fn lemma_known_by_last(before: Seq<RawMessage>, p: int, m: RawMessage)
    requires
        last_seen_at(before, p, m),
    ensures
        seen_in(before).contains_key(m.identity()),
        seen_in(before)[m.identity()] == fingerprint_of(before[p]),
{
    lemma_seen_in(before);
    assert(before[p].identity() == m.identity());
    assert forall|j: int| p < j < before.len() implies (#[trigger] before[j]).identity()
        != before[p].identity() by {
        assert(!same_message(before[j], m));
    }
    lemma_seen_in_last(before, p);
}

proof fn lemma_unknown(before: Seq<RawMessage>, m: RawMessage)
    requires
        never_seen(before, m),
    ensures
        !seen_in(before).contains_key(m.identity()),
{
    lemma_seen_in(before);
    if seen_in(before).contains_key(m.identity()) {
        let i = choose|i: int|
            0 <= i < before.len() && (#[trigger] before[i]).identity() == m.identity();
        assert(same_message(before[i], m));
    }
}

/// A message that an earlier poll held is an update where anything about it differs from how it
/// stood there last, its text above all, and no news where nothing does.
pub proof fn lemma_edited_message_is_an_update(
    before: Seq<RawMessage>,
    p: int,
    m: RawMessage,
    initial: bool,
    replay_existing: bool,
)
    requires
        last_seen_at(before, p, m),
    ensures
        change_of(seen_in(before), initial, replay_existing, m) == if same_content(before[p], m) {
            None
        } else {
            Some(WatchMessageChange::Updated)
        },
        before[p].text@ != m.text@ ==> change_of(seen_in(before), initial, replay_existing, m)
            == Some(WatchMessageChange::Updated),
{
    lemma_known_by_last(before, p, m);
}

/// A message that the earlier poll did not hold is an insertion; in the first poll it existed
/// before, and is told only on request.
pub proof fn lemma_unseen_message_is_an_insertion(
    before: Seq<RawMessage>,
    m: RawMessage,
    replay_existing: bool,
)
    requires
        never_seen(before, m),
    ensures
        change_of(seen_in(before), false, replay_existing, m) == Some(WatchMessageChange::Inserted),
        change_of(seen_in(before), true, true, m) == Some(WatchMessageChange::Existing),
        change_of(seen_in(before), true, false, m) is None,
{
    lemma_unknown(before, m);
}

/// What is announced of a poll: each of its messages that is news and is of the wanted chat, once,
/// in the order of the poll, with the reason why it is news.
pub proof fn lemma_announced_are_the_news(
    known: Map<TextKey, FingerprintView>,
    initial: bool,
    replay_existing: bool,
    filter: Option<Seq<char>>,
    messages: Seq<RawMessage>,
)
    ensures
        announced(known, initial, replay_existing, filter, messages) == messages.filter(
            |m: RawMessage|
                change_of(known, initial, replay_existing, m) is Some && (filter is None
                    || filter->0 == m.chat_id@),
        ).map_values(
            |m: RawMessage|
                Announcement {
                    change: change_of(known, initial, replay_existing, m)->0,
                    message: m,
                },
        ),
    decreases messages.len(),
{
    reveal(Seq::filter);
    let news = |m: RawMessage|
        change_of(known, initial, replay_existing, m) is Some && (filter is None || filter->0
            == m.chat_id@);
    let told = |m: RawMessage|
        Announcement { change: change_of(known, initial, replay_existing, m)->0, message: m };
    if messages.len() > 0 {
        lemma_announced_are_the_news(
            known,
            initial,
            replay_existing,
            filter,
            messages.drop_last(),
        );
        let front = messages.drop_last().filter(news);
        let m = messages.last();
        assert(front.push(m).map_values(told) =~= front.map_values(told).push(told(m)));
    } else {
        assert(messages.filter(news).map_values(told) =~= Seq::empty());
    }
}

proof fn lemma_announced_contains(
    known: Map<TextKey, FingerprintView>,
    initial: bool,
    replay_existing: bool,
    filter: Option<Seq<char>>,
    messages: Seq<RawMessage>,
    i: int,
)
    requires
        0 <= i < messages.len(),
        change_of(known, initial, replay_existing, messages[i]) is Some,
        filter is None || filter->0 == messages[i].chat_id@,
    ensures
        announced(known, initial, replay_existing, filter, messages).contains(
            Announcement {
                change: change_of(known, initial, replay_existing, messages[i])->0,
                message: messages[i],
            },
        ),
    decreases messages.len(),
{
    let list = announced(known, initial, replay_existing, filter, messages);
    let front = announced(known, initial, replay_existing, filter, messages.drop_last());
    let item = Announcement {
        change: change_of(known, initial, replay_existing, messages[i])->0,
        message: messages[i],
    };
    if i == messages.len() - 1 {
        assert(list[list.len() - 1] == item);
    } else {
        lemma_announced_contains(
            known,
            initial,
            replay_existing,
            filter,
            messages.drop_last(),
            i,
        );
        let k = front.index_of(item);
        assert(list[k] == item);
    }
}

/// From one poll to the next: a message whose text was edited is announced as updated, and a
/// message that was not there is announced as inserted.
pub proof fn lemma_edits_and_insertions_are_announced(
    before: Seq<RawMessage>,
    now: Seq<RawMessage>,
    replay_existing: bool,
    filter: Option<Seq<char>>,
    p: int,
    i: int,
)
    requires
        0 <= i < now.len(),
        filter is None || filter->0 == now[i].chat_id@,
    ensures
        last_seen_at(before, p, now[i]) && before[p].text@ != now[i].text@ ==> announced(
            seen_in(before),
            false,
            replay_existing,
            filter,
            now,
        ).contains(Announcement { change: WatchMessageChange::Updated, message: now[i] }),
        last_seen_at(before, p, now[i]) && !same_content(before[p], now[i]) ==> announced(
            seen_in(before),
            false,
            replay_existing,
            filter,
            now,
        ).contains(Announcement { change: WatchMessageChange::Updated, message: now[i] }),
        never_seen(before, now[i]) ==> announced(
            seen_in(before),
            false,
            replay_existing,
            filter,
            now,
        ).contains(Announcement { change: WatchMessageChange::Inserted, message: now[i] }),
{
    let known = seen_in(before);
    if last_seen_at(before, p, now[i]) && !same_content(before[p], now[i]) {
        lemma_edited_message_is_an_update(before, p, now[i], false, replay_existing);
        lemma_announced_contains(known, false, replay_existing, filter, now, i);
    }
    if never_seen(before, now[i]) {
        lemma_unseen_message_is_an_insertion(before, now[i], replay_existing);
        lemma_announced_contains(known, false, replay_existing, filter, now, i);
    }
}

/// The source counts as changed where a message is new, is gone, or reads otherwise than before.
pub proof fn lemma_edits_change_the_source(
    before: Seq<RawMessage>,
    now: Seq<RawMessage>,
    p: int,
    i: int,
)
    ensures
        0 <= i < now.len() && never_seen(before, now[i]) ==> seen_in(before) != seen_in(now),
        0 <= p < before.len() && never_seen(now, before[p]) ==> seen_in(before) != seen_in(now),
        0 <= i < now.len() && last_seen_at(before, p, now[i]) && last_seen_at(now, i, now[i])
            && !same_content(before[p], now[i]) ==> seen_in(before) != seen_in(now),
        0 <= i < now.len() && last_seen_at(before, p, now[i]) && last_seen_at(now, i, now[i])
            && before[p].text@ != now[i].text@ ==> seen_in(before) != seen_in(now),
{
    lemma_seen_in(before);
    lemma_seen_in(now);
    if 0 <= i < now.len() && never_seen(before, now[i]) {
        lemma_unknown(before, now[i]);
        assert(seen_in(now).contains_key(now[i].identity()));
    }
    if 0 <= p < before.len() && never_seen(now, before[p]) {
        lemma_unknown(now, before[p]);
        assert(seen_in(before).contains_key(before[p].identity()));
    }
    if 0 <= i < now.len() && last_seen_at(before, p, now[i]) && last_seen_at(now, i, now[i])
        && !same_content(before[p], now[i]) {
        lemma_known_by_last(before, p, now[i]);
        lemma_known_by_last(now, i, now[i]);
    }
}

/// The events that announce messages: as many as there are messages, each of the first version of
/// the format and of the given poll, none for a message that is not to be announced; ordered by
/// time, then chat, then message id.
pub proof fn lemma_events_tell_the_news_in_order(
    events: Seq<WatchEvent>,
    poll: u64,
    list: Seq<Announcement>,
)
    requires
        list.len() <= usize::MAX,
        announces(events, poll, list),
    ensures
        events.len() == list.len(),
        forall|k: int|
            0 <= k < events.len() ==> {
                &&& (#[trigger] events[k]) is Message
                &&& events[k]->Message_schema_version == 1
                &&& events[k]->Message_poll == poll
                &&& list.contains(
                    Announcement { change: events[k]->change, message: events[k]->message },
                )
            },
        forall|i: int|
            0 <= i < list.len() ==> exists|k: int|
                0 <= k < events.len() && (#[trigger] events[k]) is Message && events[k]->change
                    == (#[trigger] list[i]).change && events[k]->message == list[i].message,
        forall|i: int, j: int|
            0 <= i < j < events.len() ==> {
                let a = (#[trigger] events[i])->message;
                let b = (#[trigger] events[j])->message;
                let from = rfc3339(a.timestamp.unix_seconds(), a.timestamp.sub_nanos());
                let to = rfc3339(b.timestamp.unix_seconds(), b.timestamp.sub_nanos());
                &&& from != to ==> text_le(from, to)
                &&& from == to && a.chat_id@ != b.chat_id@ ==> text_le(a.chat_id@, b.chat_id@)
                &&& from == to && a.chat_id@ == b.chat_id@ ==> text_le(
                    a.message_id@,
                    b.message_id@,
                )
            },
{
    let rank = send_rank(list);
    let order = choose|order: Seq<usize>|
        #![trigger is_stable_order(list.len(), rank, order)]
        {
            &&& is_stable_order(list.len(), rank, order)
            &&& events == order.map_values(|i: usize| message_event(poll, list[i as int]))
        };
    assert forall|k: int| 0 <= k < events.len() implies {
        &&& (#[trigger] events[k]) is Message
        &&& events[k]->Message_schema_version == 1
        &&& events[k]->Message_poll == poll
        &&& list.contains(Announcement { change: events[k]->change, message: events[k]->message })
    } by {
        let item = list[order[k] as int];
        assert(events[k] == message_event(poll, item));
        assert(item == Announcement { change: item.change, message: item.message });
    }
    assert forall|i: int| 0 <= i < list.len() implies exists|k: int|
        0 <= k < events.len() && (#[trigger] events[k]) is Message && events[k]->change == (
        #[trigger] list[i]).change && events[k]->message == list[i].message by {
        assert(order.contains(i as usize));
        let k = order.index_of(i as usize);
        assert(events[k] == message_event(poll, list[i]));
    }
    assert forall|i: int, j: int| 0 <= i < j < events.len() implies {
        let a = (#[trigger] events[i])->message;
        let b = (#[trigger] events[j])->message;
        let from = rfc3339(a.timestamp.unix_seconds(), a.timestamp.sub_nanos());
        let to = rfc3339(b.timestamp.unix_seconds(), b.timestamp.sub_nanos());
        &&& from != to ==> text_le(from, to)
        &&& from == to && a.chat_id@ != b.chat_id@ ==> text_le(a.chat_id@, b.chat_id@)
        &&& from == to && a.chat_id@ == b.chat_id@ ==> text_le(a.message_id@, b.message_id@)
    } by {
        assert(precedes(rank, order[i], order[j]));
        assert(events[i]->message == list[order[i] as int].message);
        assert(events[j]->message == list[order[j] as int].message);
    }
}

} // verus!
