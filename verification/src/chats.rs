//! Chat lists: which chats there are, and when each was last written to.
use crate::order::{is_stable_order, precedes, rank_of, stable_order, RankedText};
use crate::text::{lemma_text_antisymmetric, text_at_most, text_le};
use crate::time::{lemma_instants_ordered, lemma_order_of_instants, Timestamp};
use crate::types::RawMessage;
use vstd::prelude::*;

verus! {

/// A chat as a source lists it.
#[derive(Debug, PartialEq, Eq)]
pub struct ChatSummary {
    pub chat_id: String,
    pub chat_name: String,
    pub chat_type: String,
    /// Latest message time that the source can report; used to order chat lists by recency.
    /// Sources without times per chat leave this empty.
    pub last_message_at: Option<Timestamp>,
}

impl Clone for ChatSummary {
    fn clone(&self) -> (r: Self)
        ensures
            r == *self,
    {
        ChatSummary {
            chat_id: self.chat_id.clone(),
            chat_name: self.chat_name.clone(),
            chat_type: self.chat_type.clone(),
            last_message_at: self.last_message_at,
        }
    }
}

/// The later of two instants.
pub open spec fn later_of(a: Timestamp, b: Timestamp) -> Timestamp {
    if b.at_or_before(a) {
        a
    } else {
        b
    }
}

/// The time of the latest message of a chat.
pub open spec fn latest_in(messages: Seq<RawMessage>, chat_id: Seq<char>) -> Option<Timestamp>
    decreases messages.len(),
{
    if messages.len() == 0 {
        None
    } else {
        let before = latest_in(messages.drop_last(), chat_id);
        let m = messages.last();
        if m.chat_id@ != chat_id {
            before
        } else {
            match before {
                Some(time) => Some(later_of(time, m.timestamp)),
                None => Some(m.timestamp),
            }
        }
    }
}

/// `i` is the first message of its chat.
pub open spec fn is_first_of_chat(messages: Seq<RawMessage>, i: int) -> bool {
    &&& 0 <= i < messages.len()
    &&& forall|j: int| 0 <= j < i ==> (#[trigger] messages[j]).chat_id@ != messages[i].chat_id@
}

/// No message of the chat comes later than this, and one is as late.
pub proof fn lemma_latest_is_latest(messages: Seq<RawMessage>, chat_id: Seq<char>)
    ensures
        latest_in(messages, chat_id) is None <==> forall|i: int|
            0 <= i < messages.len() ==> (#[trigger] messages[i]).chat_id@ != chat_id,
        latest_in(messages, chat_id) matches Some(time) ==> {
            &&& forall|i: int|
                0 <= i < messages.len() && (#[trigger] messages[i]).chat_id@ == chat_id
                    ==> messages[i].timestamp.at_or_before(time)
            &&& exists|i: int|
                0 <= i < messages.len() && (#[trigger] messages[i]).chat_id@ == chat_id
                    && messages[i].timestamp == time
        },
    decreases messages.len(),
{
    if messages.len() > 0 {
        let front = messages.drop_last();
        let n = messages.len() - 1;
        let m = messages[n];
        lemma_latest_is_latest(front, chat_id);
        if m.chat_id@ == chat_id {
            match latest_in(front, chat_id) {
                Some(time) => {
                    let now = later_of(time, m.timestamp);
                    lemma_instants_ordered(time, m.timestamp);
                    assert forall|i: int|
                        0 <= i < messages.len() && (#[trigger] messages[i]).chat_id@
                            == chat_id implies messages[i].timestamp.at_or_before(now) by {
                        if i < n {
                            assert(front[i].chat_id@ == chat_id);
                        }
                    }
                    let i = choose|i: int|
                        0 <= i < front.len() && (#[trigger] front[i]).chat_id@ == chat_id
                            && front[i].timestamp == time;
                    assert(messages[i].chat_id@ == chat_id && messages[i].timestamp == time);
                },
                None => {
                    assert forall|i: int|
                        0 <= i < messages.len() && (#[trigger] messages[i]).chat_id@
                            == chat_id implies messages[i].timestamp.at_or_before(
                        m.timestamp,
                    ) by {
                        if i < n {
                            assert(front[i].chat_id@ != chat_id);
                        }
                    }
                },
            }
        } else {
            match latest_in(front, chat_id) {
                Some(time) => {
                    assert forall|i: int|
                        0 <= i < messages.len() && (#[trigger] messages[i]).chat_id@
                            == chat_id implies messages[i].timestamp.at_or_before(time) by {
                        assert(front[i].chat_id@ == chat_id);
                    }
                    let i = choose|i: int|
                        0 <= i < front.len() && (#[trigger] front[i]).chat_id@ == chat_id
                            && front[i].timestamp == time;
                    assert(messages[i].chat_id@ == chat_id && messages[i].timestamp == time);
                },
                None => {
                    assert forall|i: int| 0 <= i < messages.len() implies (
                    #[trigger] messages[i]).chat_id@ != chat_id by {
                        if i < n {
                            assert(front[i].chat_id@ != chat_id);
                        }
                    }
                },
            }
        }
    }
}

/// A chat in a list of messages: its first message and the time of its latest.
struct ChatGroup {
    chat_id: String,
    first: usize,
    latest: Timestamp,
}

spec fn group_of(messages: Seq<RawMessage>, group: ChatGroup) -> bool {
    &&& is_first_of_chat(messages, group.first as int)
    &&& messages[group.first as int].chat_id@ == group.chat_id@
    &&& latest_in(messages, group.chat_id@) == Some(group.latest)
}

spec fn groups_ascend(groups: Seq<ChatGroup>) -> bool {
    forall|a: int, b: int|
        0 <= a < b < groups.len() ==> {
            &&& text_le((#[trigger] groups[a]).chat_id@, (#[trigger] groups[b]).chat_id@)
            &&& groups[a].chat_id@ != groups[b].chat_id@
        }
}

proof fn lemma_latest_unique(messages: Seq<RawMessage>, chat_id: Seq<char>, time: Timestamp)
    requires
        forall|i: int|
            0 <= i < messages.len() && (#[trigger] messages[i]).chat_id@ == chat_id
                ==> messages[i].timestamp.at_or_before(time),
        exists|i: int|
            0 <= i < messages.len() && (#[trigger] messages[i]).chat_id@ == chat_id
                && messages[i].timestamp == time,
    ensures
        latest_in(messages, chat_id) == Some(time),
{
    lemma_latest_is_latest(messages, chat_id);
    let i = choose|i: int|
        0 <= i < messages.len() && (#[trigger] messages[i]).chat_id@ == chat_id
            && messages[i].timestamp == time;
    assert(messages[i].chat_id@ == chat_id);
    let other = latest_in(messages, chat_id)->0;
    lemma_instants_ordered(time, other);
}

spec fn stands_for(messages: Seq<RawMessage>, p: int, g: ChatGroup) -> bool {
    messages[p].chat_id@ == g.chat_id@ && messages[p].timestamp == g.latest
}

/// The group starts with the first message of its chat, and one of the first `k` positions has
/// its time.
spec fn is_sound(messages: Seq<RawMessage>, order: Seq<usize>, k: int, g: ChatGroup) -> bool {
    &&& is_first_of_chat(messages, g.first as int)
    &&& messages[g.first as int].chat_id@ == g.chat_id@
    &&& exists|j: int| 0 <= j < k && #[trigger] stands_for(messages, order[j] as int, g)
}

spec fn covers(messages: Seq<RawMessage>, p: int, g: ChatGroup) -> bool {
    messages[p].chat_id@ == g.chat_id@ && messages[p].timestamp.at_or_before(g.latest)
}

/// A group of the message's chat is no earlier than the message.
spec fn is_covered(messages: Seq<RawMessage>, groups: Seq<ChatGroup>, p: int) -> bool {
    exists|e: int| 0 <= e < groups.len() && #[trigger] covers(messages, p, groups[e])
}

spec fn groups_sound(
    messages: Seq<RawMessage>,
    order: Seq<usize>,
    k: int,
    groups: Seq<ChatGroup>,
) -> bool {
    forall|e: int| 0 <= e < groups.len() ==> #[trigger] is_sound(messages, order, k, groups[e])
}

spec fn positions_covered(
    messages: Seq<RawMessage>,
    order: Seq<usize>,
    k: int,
    groups: Seq<ChatGroup>,
) -> bool {
    forall|j: int| 0 <= j < k ==> #[trigger] is_covered(messages, groups, order[j] as int)
}

spec fn group_progress(
    messages: Seq<RawMessage>,
    order: Seq<usize>,
    groups: Seq<ChatGroup>,
    k: int,
) -> bool {
    &&& groups_ascend(groups)
    &&& groups_sound(messages, order, k, groups)
    &&& positions_covered(messages, order, k, groups)
    &&& k == 0 <==> groups.len() == 0
    &&& k > 0 ==> groups.last().chat_id@ == messages[order[k - 1] as int].chat_id@
}

proof fn lemma_here_is_first(
    messages: Seq<RawMessage>,
    keys: Seq<RankedText>,
    order: Seq<usize>,
    k: int,
)
    requires
        keys.len() == messages.len(),
        forall|i: int| 0 <= i < keys.len() ==> (#[trigger] keys[i]).text@ == messages[i].chat_id@,
        is_stable_order(keys.len(), rank_of(keys), order),
        0 <= k < order.len(),
        k > 0 ==> messages[order[k - 1] as int].chat_id@ != messages[order[k] as int].chat_id@,
    ensures
        is_first_of_chat(messages, order[k] as int),
        k > 0 ==> text_le(
            messages[order[k - 1] as int].chat_id@,
            messages[order[k] as int].chat_id@,
        ),
{
    let rank = rank_of(keys);
    let here = order[k] as int;
    let id = messages[here].chat_id@;
    assert(keys[here].text@ == id);
    if k > 0 {
        let last = order[k - 1] as int;
        assert(precedes(rank, order[k - 1], order[k]));
        assert(rank(last, here));
        assert(keys[last].text@ == messages[last].chat_id@);
    }
    assert forall|p: int| 0 <= p < here implies (#[trigger] messages[p]).chat_id@ != id by {
        if messages[p].chat_id@ == id {
            let u = p as usize;
            assert(order.contains(u));
            let b = choose|b: int| 0 <= b < order.len() && order[b] == u;
            assert(keys[p].text@ == id);
            if b < k {
                let last = order[k - 1] as int;
                if b < k - 1 {
                    assert(precedes(rank, order[b], order[k - 1]));
                    assert(rank(p, last));
                    lemma_text_antisymmetric(id, messages[last].chat_id@);
                }
            } else {
                assert(b != k);
                assert(precedes(rank, order[k], order[b]));
                crate::text::lemma_text_total(id, id);
                assert(rank(p, here));
            }
        }
    }
}

proof fn lemma_still_sound(
    messages: Seq<RawMessage>,
    order: Seq<usize>,
    k: int,
    g: ChatGroup,
)
    requires
        is_sound(messages, order, k, g),
    ensures
        is_sound(messages, order, k + 1, g),
{
    let j = choose|j: int| 0 <= j < k && #[trigger] stands_for(messages, order[j] as int, g);
    assert(0 <= j < k + 1 && stands_for(messages, order[j] as int, g));
}

proof fn lemma_new_group(
    messages: Seq<RawMessage>,
    keys: Seq<RankedText>,
    order: Seq<usize>,
    groups: Seq<ChatGroup>,
    k: int,
    new: ChatGroup,
)
    requires
        keys.len() == messages.len(),
        forall|i: int| 0 <= i < keys.len() ==> (#[trigger] keys[i]).text@ == messages[i].chat_id@,
        is_stable_order(keys.len(), rank_of(keys), order),
        0 <= k < order.len(),
        group_progress(messages, order, groups, k),
        k > 0 ==> groups.last().chat_id@ != messages[order[k] as int].chat_id@,
        new.chat_id@ == messages[order[k] as int].chat_id@,
        new.first == order[k],
        new.latest == messages[order[k] as int].timestamp,
    ensures
        group_progress(messages, order, groups.push(new), k + 1),
{
    lemma_here_is_first(messages, keys, order, k);
    let id = messages[order[k] as int].chat_id@;
    let list = groups.push(new);
    assert(groups_ascend(list)) by {
        assert forall|a: int, b: int| 0 <= a < b < list.len() implies {
            &&& text_le((#[trigger] list[a]).chat_id@, (#[trigger] list[b]).chat_id@)
            &&& list[a].chat_id@ != list[b].chat_id@
        } by {
            if b < groups.len() {
                assert(list[a] == groups[a] && list[b] == groups[b]);
            } else {
                let tail = groups[groups.len() - 1].chat_id@;
                if a < groups.len() - 1 {
                    assert(text_le(groups[a].chat_id@, tail));
                    crate::text::lemma_text_transitive(groups[a].chat_id@, tail, id);
                    if groups[a].chat_id@ == id {
                        lemma_text_antisymmetric(id, tail);
                    }
                }
            }
        }
    }
    assert(groups_sound(messages, order, k + 1, list)) by {
        assert forall|e: int| 0 <= e < list.len() implies #[trigger] is_sound(
            messages,
            order,
            k + 1,
            list[e],
        ) by {
            if e < groups.len() {
                assert(list[e] == groups[e]);
                assert(is_sound(messages, order, k, groups[e]));
                lemma_still_sound(messages, order, k, groups[e]);
            } else {
                assert(stands_for(messages, order[k] as int, new));
            }
        }
    }
    assert(positions_covered(messages, order, k + 1, list)) by {
        assert forall|j: int| 0 <= j < k + 1 implies #[trigger] is_covered(
            messages,
            list,
            order[j] as int,
        ) by {
            if j < k {
                assert(is_covered(messages, groups, order[j] as int));
                let e = choose|e: int|
                    0 <= e < groups.len() && #[trigger] covers(
                        messages,
                        order[j] as int,
                        groups[e],
                    );
                assert(covers(messages, order[j] as int, list[e]));
            } else {
                assert(covers(messages, order[j] as int, list[groups.len() as int]));
            }
        }
    }
}

proof fn lemma_grown_group(
    messages: Seq<RawMessage>,
    order: Seq<usize>,
    groups: Seq<ChatGroup>,
    k: int,
    grown: ChatGroup,
)
    requires
        0 <= k < order.len(),
        group_progress(messages, order, groups, k),
        groups.len() > 0,
        groups.last().chat_id@ == messages[order[k] as int].chat_id@,
        grown.chat_id == groups.last().chat_id,
        grown.first == groups.last().first,
        grown.latest == later_of(groups.last().latest, messages[order[k] as int].timestamp),
    ensures
        group_progress(messages, order, groups.drop_last().push(grown), k + 1),
{
    let n = groups.len() - 1;
    let list = groups.drop_last().push(grown);
    let time = messages[order[k] as int].timestamp;
    lemma_instants_ordered(groups.last().latest, time);
    assert(groups_ascend(list)) by {
        assert forall|a: int, b: int| 0 <= a < b < list.len() implies {
            &&& text_le((#[trigger] list[a]).chat_id@, (#[trigger] list[b]).chat_id@)
            &&& list[a].chat_id@ != list[b].chat_id@
        } by {
            assert(text_le(groups[a].chat_id@, groups[b].chat_id@));
        }
    }
    assert(groups_sound(messages, order, k + 1, list)) by {
        assert forall|e: int| 0 <= e < list.len() implies #[trigger] is_sound(
            messages,
            order,
            k + 1,
            list[e],
        ) by {
            assert(is_sound(messages, order, k, groups[e]));
            if e < n {
                assert(list[e] == groups[e]);
                lemma_still_sound(messages, order, k, groups[e]);
            } else if grown.latest == time {
                assert(stands_for(messages, order[k] as int, grown));
            } else {
                let j = choose|j: int|
                    0 <= j < k && #[trigger] stands_for(messages, order[j] as int, groups[e]);
                assert(stands_for(messages, order[j] as int, grown));
            }
        }
    }
    assert(positions_covered(messages, order, k + 1, list)) by {
        assert forall|j: int| 0 <= j < k + 1 implies #[trigger] is_covered(
            messages,
            list,
            order[j] as int,
        ) by {
            if j < k {
                assert(is_covered(messages, groups, order[j] as int));
                let e = choose|e: int|
                    0 <= e < groups.len() && #[trigger] covers(
                        messages,
                        order[j] as int,
                        groups[e],
                    );
                assert(covers(messages, order[j] as int, list[e]));
            } else {
                assert(covers(messages, order[j] as int, list[n]));
            }
        }
    }
}

spec fn has_group(groups: Seq<ChatGroup>, chat_id: Seq<char>) -> bool {
    exists|e: int| 0 <= e < groups.len() && (#[trigger] groups[e]).chat_id@ == chat_id
}

spec fn groups_complete(messages: Seq<RawMessage>, groups: Seq<ChatGroup>) -> bool {
    &&& groups_ascend(groups)
    &&& forall|e: int| 0 <= e < groups.len() ==> group_of(messages, #[trigger] groups[e])
    &&& forall|i: int|
        0 <= i < messages.len() ==> has_group(groups, (#[trigger] messages[i]).chat_id@)
}

proof fn lemma_message_covered(
    messages: Seq<RawMessage>,
    order: Seq<usize>,
    groups: Seq<ChatGroup>,
    i: int,
)
    requires
        order.len() == messages.len(),
        messages.len() <= usize::MAX,
        forall|i: usize| i < messages.len() ==> #[trigger] order.contains(i),
        positions_covered(messages, order, order.len() as int, groups),
        0 <= i < messages.len(),
    ensures
        is_covered(messages, groups, i),
{
    let u = i as usize;
    assert(order.contains(u));
    let j = choose|j: int| 0 <= j < order.len() && order[j] == u;
    assert(is_covered(messages, groups, order[j] as int));
}

proof fn lemma_groups_complete(
    messages: Seq<RawMessage>,
    order: Seq<usize>,
    groups: Seq<ChatGroup>,
)
    requires
        order.len() == messages.len(),
        messages.len() <= usize::MAX,
        forall|i: usize| i < messages.len() ==> #[trigger] order.contains(i),
        forall|j: int| 0 <= j < order.len() ==> (#[trigger] order[j]) < messages.len(),
        group_progress(messages, order, groups, order.len() as int),
    ensures
        groups_complete(messages, groups),
{
    let n = order.len() as int;
    assert forall|e: int| 0 <= e < groups.len() implies group_of(messages, #[trigger] groups[e]) by {
        let g = groups[e];
        assert(is_sound(messages, order, n, g));
        assert forall|i: int|
            0 <= i < messages.len() && (#[trigger] messages[i]).chat_id@
                == g.chat_id@ implies messages[i].timestamp.at_or_before(g.latest) by {
            lemma_message_covered(messages, order, groups, i);
            let f = choose|f: int|
                0 <= f < groups.len() && #[trigger] covers(messages, i, groups[f]);
            if f < e {
                assert(groups[f].chat_id@ != groups[e].chat_id@);
            } else if e < f {
                assert(groups[e].chat_id@ != groups[f].chat_id@);
            }
        }
        let j = choose|j: int| 0 <= j < n && #[trigger] stands_for(messages, order[j] as int, g);
        let p = order[j] as int;
        assert(messages[p].chat_id@ == g.chat_id@ && messages[p].timestamp == g.latest);
        lemma_latest_unique(messages, g.chat_id@, g.latest);
    }
    assert forall|i: int| 0 <= i < messages.len() implies has_group(
        groups,
        (#[trigger] messages[i]).chat_id@,
    ) by {
        lemma_message_covered(messages, order, groups, i);
        let f = choose|f: int| 0 <= f < groups.len() && #[trigger] covers(messages, i, groups[f]);
        assert(groups[f].chat_id@ == messages[i].chat_id@);
    }
}

fn group_chats(messages: &[RawMessage]) -> (groups: Vec<ChatGroup>)
    ensures
        groups_complete(messages@, groups@),
{
    let mut keys: Vec<RankedText> = Vec::new();
    for i in 0..messages.len()
        invariant
            keys.len() == i,
            forall|j: int| 0 <= j < i ==> (#[trigger] keys@[j]).text@ == messages@[j].chat_id@,
    {
        keys.push(RankedText { text: messages[i].chat_id.clone() });
    }
    let order: Vec<usize> = stable_order(&keys);
    let mut groups: Vec<ChatGroup> = Vec::new();
    for k in 0..order.len()
        invariant
            order.len() == keys.len() == messages.len(),
            forall|j: int|
                0 <= j < keys.len() ==> (#[trigger] keys@[j]).text@ == messages@[j].chat_id@,
            is_stable_order(keys@.len(), rank_of(keys@), order@),
            group_progress(messages@, order@, groups@, k as int),
    {
        let here: usize = order[k];
        let ghost before = groups@;
        match groups.pop() {
            Some(last) => {
                let mut group: ChatGroup = last;
                if group.chat_id == messages[here].chat_id {
                    if !messages[here].timestamp.is_at_or_before(&group.latest) {
                        group.latest = messages[here].timestamp;
                    }
                    let ghost grown = group;
                    groups.push(group);
                    proof {
                        lemma_grown_group(messages@, order@, before, k as int, grown);
                        assert(groups@ =~= before.drop_last().push(grown));
                    }
                } else {
                    groups.push(group);
                    let new: ChatGroup = ChatGroup {
                        chat_id: messages[here].chat_id.clone(),
                        first: here,
                        latest: messages[here].timestamp,
                    };
                    let ghost fresh = new;
                    groups.push(new);
                    proof {
                        lemma_new_group(messages@, keys@, order@, before, k as int, fresh);
                        assert(groups@ =~= before.push(fresh));
                    }
                }
            },
            None => {
                let new: ChatGroup = ChatGroup {
                    chat_id: messages[here].chat_id.clone(),
                    first: here,
                    latest: messages[here].timestamp,
                };
                let ghost fresh = new;
                groups.push(new);
                proof {
                    lemma_new_group(messages@, keys@, order@, before, k as int, fresh);
                    assert(groups@ =~= before.push(fresh));
                }
            },
        }
    }
    proof {
        lemma_groups_complete(messages@, order@, groups@);
    }
    groups
}

/// A chat list made from messages: every chat once, in the order of the ids, with the name and
/// kind that its first message gives and the time of its latest.
pub open spec fn is_chat_listing(messages: Seq<RawMessage>, chats: Seq<ChatSummary>) -> bool {
    &&& forall|a: int, b: int|
        0 <= a < b < chats.len() ==> {
            &&& text_le((#[trigger] chats[a]).chat_id@, (#[trigger] chats[b]).chat_id@)
            &&& chats[a].chat_id@ != chats[b].chat_id@
        }
    &&& forall|k: int| 0 <= k < chats.len() ==> is_listed_chat(messages, #[trigger] chats[k])
    &&& forall|i: int|
        0 <= i < messages.len() ==> lists(chats, (#[trigger] messages[i]).chat_id@)
}

/// The chat has an entry.
pub open spec fn lists(chats: Seq<ChatSummary>, chat_id: Seq<char>) -> bool {
    exists|k: int| 0 <= k < chats.len() && (#[trigger] chats[k]).chat_id@ == chat_id
}

/// The entry says what the messages of its chat say.
pub open spec fn is_listed_chat(messages: Seq<RawMessage>, chat: ChatSummary) -> bool {
    &&& exists|i: int|
        {
            &&& #[trigger] is_first_of_chat(messages, i)
            &&& messages[i].chat_id@ == chat.chat_id@
            &&& messages[i].chat_name@ == chat.chat_name@
            &&& messages[i].chat_type@ == chat.chat_type@
        }
    &&& chat.last_message_at == latest_in(messages, chat.chat_id@)
}

/// The chats of the given messages, each with the time of its latest message.
pub fn chats_with_latest(messages: &[RawMessage]) -> (chats: Vec<ChatSummary>)
    ensures
        is_chat_listing(messages@, chats@),
{
    let groups: Vec<ChatGroup> = group_chats(messages);
    let mut chats: Vec<ChatSummary> = Vec::new();
    for k in 0..groups.len()
        invariant
            groups_complete(messages@, groups@),
            chats.len() == k,
            forall|j: int|
                0 <= j < k ==> (#[trigger] chats@[j]).chat_id@ == groups@[j].chat_id@
                    && is_listed_chat(messages@, chats@[j]),
    {
        assert(group_of(messages@, groups@[k as int]));
        let first: usize = groups[k].first;
        let chat: ChatSummary = ChatSummary {
            chat_id: messages[first].chat_id.clone(),
            chat_name: messages[first].chat_name.clone(),
            chat_type: messages[first].chat_type.clone(),
            last_message_at: Some(groups[k].latest),
        };
        assert(is_first_of_chat(messages@, first as int));
        assert(is_listed_chat(messages@, chat));
        chats.push(chat);
    }
    proof {
        assert forall|a: int, b: int| 0 <= a < b < chats@.len() implies {
            &&& text_le((#[trigger] chats@[a]).chat_id@, (#[trigger] chats@[b]).chat_id@)
            &&& chats@[a].chat_id@ != chats@[b].chat_id@
        } by {
            assert(text_le(groups@[a].chat_id@, groups@[b].chat_id@));
        }
        assert forall|i: int| 0 <= i < messages@.len() implies lists(
            chats@,
            (#[trigger] messages@[i]).chat_id@,
        ) by {
            assert(has_group(groups@, messages@[i].chat_id@));
            let e = choose|e: int|
                0 <= e < groups@.len() && (#[trigger] groups@[e]).chat_id@ == messages@[i].chat_id@;
            assert(chats@[e].chat_id@ == messages@[i].chat_id@);
        }
    }
    chats
}

fn find_group(groups: &Vec<ChatGroup>, chat_id: &String) -> (r: Option<usize>)
    requires
        groups_ascend(groups@),
    ensures
        match r {
            Some(i) => i < groups@.len() && groups@[i as int].chat_id@ == chat_id@,
            None => !has_group(groups@, chat_id@),
        },
{
    let mut lo: usize = 0;
    let mut hi: usize = groups.len();
    while lo < hi
        invariant
            lo <= hi <= groups.len(),
            groups_ascend(groups@),
            forall|i: int| 0 <= i < lo ==> (#[trigger] groups@[i]).chat_id@ != chat_id@,
            forall|i: int| hi <= i < groups@.len() ==> (#[trigger] groups@[i]).chat_id@ != chat_id@,
        decreases hi - lo,
    {
        let mid: usize = lo + (hi - lo) / 2;
        let ghost pivot = groups@[mid as int].chat_id@;
        if groups[mid].chat_id == *chat_id {
            return Some(mid);
        }
        if text_at_most(groups[mid].chat_id.as_str(), chat_id.as_str()) {
            assert forall|i: int| 0 <= i < mid + 1 implies (#[trigger] groups@[i]).chat_id@
                != chat_id@ by {
                if groups@[i].chat_id@ == chat_id@ && i < mid {
                    assert(text_le(groups@[i].chat_id@, groups@[mid as int].chat_id@));
                    lemma_text_antisymmetric(pivot, chat_id@);
                }
            }
            lo = mid + 1;
        } else {
            assert forall|i: int| mid <= i < groups@.len() implies (#[trigger] groups@[i]).chat_id@
                != chat_id@ by {
                if groups@[i].chat_id@ == chat_id@ && i > mid {
                    assert(text_le(groups@[mid as int].chat_id@, groups@[i].chat_id@));
                }
            }
            hi = mid;
        }
    }
    None
}

/// A chat as a database lists it, without times.
#[derive(Debug, PartialEq, Eq)]
pub struct SourceChat {
    pub chat_id: String,
    pub chat_name: String,
    pub chat_type: String,
}

/// The same chat with the time of its latest message, if there is one.
pub open spec fn dated(messages: Seq<RawMessage>, chat: SourceChat) -> ChatSummary {
    ChatSummary {
        chat_id: chat.chat_id,
        chat_name: chat.chat_name,
        chat_type: chat.chat_type,
        last_message_at: latest_in(messages, chat.chat_id@),
    }
}

/// Adds to each chat the time of its latest message, if there is one.
pub fn attach_latest(chats: &Vec<SourceChat>, messages: &[RawMessage]) -> (r: Vec<ChatSummary>)
    ensures
        r@ == chats@.map_values(|chat: SourceChat| dated(messages@, chat)),
{
    let groups: Vec<ChatGroup> = group_chats(messages);
    let mut r: Vec<ChatSummary> = Vec::new();
    for i in 0..chats.len()
        invariant
            groups_complete(messages@, groups@),
            r.len() == i,
            forall|j: int| 0 <= j < i ==> #[trigger] r@[j] == dated(messages@, chats@[j]),
    {
        let ghost id = chats@[i as int].chat_id@;
        let latest: Option<Timestamp> = match find_group(&groups, &chats[i].chat_id) {
            Some(at) => {
                assert(group_of(messages@, groups@[at as int]));
                Some(groups[at].latest)
            },
            None => {
                proof {
                    lemma_latest_is_latest(messages@, id);
                    assert forall|j: int| 0 <= j < messages@.len() implies (
                    #[trigger] messages@[j]).chat_id@ != id by {
                        assert(has_group(groups@, messages@[j].chat_id@));
                    }
                }
                None
            },
        };
        r.push(
            ChatSummary {
                chat_id: chats[i].chat_id.clone(),
                chat_name: chats[i].chat_name.clone(),
                chat_type: chats[i].chat_type.clone(),
                last_message_at: latest,
            },
        );
    }
    assert(r@ =~= chats@.map_values(|chat: SourceChat| dated(messages@, chat)));
    r
}

/// The time of a chat is that of one of its messages, and none of its messages has more seconds
/// than it.
pub proof fn lemma_latest_in_seconds(messages: Seq<RawMessage>, chat_id: Seq<char>, i: int)
    requires
        0 <= i < messages.len(),
        messages[i].chat_id@ == chat_id,
    ensures
        latest_in(messages, chat_id) is Some,
        messages[i].timestamp.unix_seconds() <= latest_in(messages, chat_id)->0.unix_seconds(),
{
    lemma_latest_is_latest(messages, chat_id);
    lemma_order_of_instants(latest_in(messages, chat_id)->0, messages[i].timestamp);
}

/// A listing holds each chat that has a message exactly once, in the order of the ids, under the
/// name and kind that its first message gives and the time of its latest.
pub proof fn lemma_listing_holds_each_chat_once(
    messages: Seq<RawMessage>,
    chats: Seq<ChatSummary>,
    k: int,
    i: int,
)
    requires
        is_chat_listing(messages, chats),
        0 <= k < chats.len(),
        0 <= i < messages.len(),
        messages[i].chat_id@ == chats[k].chat_id@,
        forall|j: int| 0 <= j < i ==> (#[trigger] messages[j]).chat_id@ != messages[i].chat_id@,
    ensures
        chats[k].chat_name@ == messages[i].chat_name@,
        chats[k].chat_type@ == messages[i].chat_type@,
        chats[k].last_message_at is Some,
        chats[k].last_message_at->0.unix_seconds() >= messages[i].timestamp.unix_seconds(),
        forall|j: int| 0 <= j < chats.len() && j != k ==> (#[trigger] chats[j]).chat_id@
            != chats[k].chat_id@,
{
    assert(is_listed_chat(messages, chats[k]));
    let first = choose|p: int|
        {
            &&& #[trigger] is_first_of_chat(messages, p)
            &&& messages[p].chat_id@ == chats[k].chat_id@
            &&& messages[p].chat_name@ == chats[k].chat_name@
            &&& messages[p].chat_type@ == chats[k].chat_type@
        };
    if first < i {
        assert(messages[first].chat_id@ != messages[i].chat_id@);
    }
    if i < first {
        assert(messages[i].chat_id@ != messages[first].chat_id@);
    }
    lemma_latest_in_seconds(messages, chats[k].chat_id@, i);
    assert forall|j: int| 0 <= j < chats.len() && j != k implies (#[trigger] chats[j]).chat_id@
        != chats[k].chat_id@ by {
        if j < k {
            assert(chats[j].chat_id@ != chats[k].chat_id@);
        } else {
            assert(chats[k].chat_id@ != chats[j].chat_id@);
        }
    }
}

/// Every chat that has a message is listed.
pub proof fn lemma_no_chat_is_missing(
    messages: Seq<RawMessage>,
    chats: Seq<ChatSummary>,
    i: int,
)
    requires
        is_chat_listing(messages, chats),
        0 <= i < messages.len(),
    ensures
        exists|k: int| 0 <= k < chats.len() && (#[trigger] chats[k]).chat_id@
            == messages[i].chat_id@,
{
    assert(lists(chats, messages[i].chat_id@));
}

/// Dating a chat keeps its id, its name and its kind; it has a time exactly where it has a message.
pub proof fn lemma_dating_keeps_the_chat(messages: Seq<RawMessage>, chat: SourceChat)
    ensures
        dated(messages, chat).chat_id == chat.chat_id,
        dated(messages, chat).chat_name == chat.chat_name,
        dated(messages, chat).chat_type == chat.chat_type,
        dated(messages, chat).last_message_at is Some <==> exists|i: int|
            0 <= i < messages.len() && (#[trigger] messages[i]).chat_id@ == chat.chat_id@,
{
    lemma_latest_is_latest(messages, chat.chat_id@);
}

} // verus!
