//! Delivering a text to a room's window: what is aimed at, what must hold before anything is
//! submitted, and what counts as delivered. Nothing is guessed and nothing is submitted twice.
use crate::adapters::SourceError;
use crate::chats::ChatSummary;
use crate::digits::{char_count, decimal, decimal_text, utf16_encoded, utf16_text, wide_text};
use crate::kakao::windows::native::{eq_ignore_case, same_but_case};
use crate::kakao::windows::{is_sendable, says, source_error, validate_text, BAD_TEXT};
use crate::text::{chars_of, same_text, string_of};
use crate::types::{optional_text, RawMessage};
use vstd::hash_set::StringHashSet;
use vstd::prelude::*;

verus! {

/// The most UTF-16 units that are read from a control.
pub const MAX_CONTROL_TEXT: usize = 65_536;

/// Milliseconds for which a delivery is waited for.
pub const CONFIRM_MILLIS: u64 = 8_000;

/// Milliseconds between two looks for a delivery.
pub const CONFIRM_STEP_MILLIS: u64 = 250;

pub const CONTROL_SILENT: &'static str =
    "KakaoTalk control did not respond. Nothing is confirmed sent; inspect the room before retrying.";

pub const CONTROL_TOO_LONG: &'static str = "KakaoTalk control text exceeds the supported size";

pub const CONTROL_CHANGED: &'static str = "KakaoTalk control changed while being read";

pub const CONTROL_INVALID: &'static str = "KakaoTalk control returned invalid Unicode";

pub const SEND_INTERRUPTED: &'static str =
    "A previous send was interrupted. Inspect the room and draft before retrying.";

pub const SEND_BUSY: &'static str = "Another send is in progress; draft was not changed";

pub const TARGET_MISSING: &'static str =
    "Room identity is missing or ambiguous; sync and select one exact chat ID";

pub const TITLE_SHARED: &'static str =
    "Multiple rooms share this title. Windows cannot verify their identity; rename the intended room uniquely in KakaoTalk before sending.";

pub const WINDOW_MISSING: &'static str =
    "Open the intended room in KakaoTalk first. Exactly one window with its exact title is required; no window was opened or guessed.";

pub const COMPOSE_AMBIGUOUS: &'static str =
    "Unsupported or ambiguous KakaoTalk compose control; nothing was sent";

pub const BODY_MISSING: &'static str = "A text body is required";

pub const DRAFT_PRESENT: &'static str =
    "The KakaoTalk compose box already contains a draft; it was not changed";

pub const NO_BASELINE: &'static str =
    "No readable message baseline for this room. Open its history and retry before sending.";

pub const DRAFT_REJECTED: &'static str = "KakaoTalk rejected the draft; nothing was submitted";

pub const DRAFT_CHANGED: &'static str =
    "Target or draft changed. Nothing was submitted; inspect the compose box.";

pub const OWNER_CHANGED: &'static str =
    "KakaoTalk control identity changed; nothing was submitted";

pub const UNCONFIRMED: &'static str =
    "Submission occurred but delivery is unconfirmed. Inspect KakaoTalk before retrying; no automatic resend was attempted.";

/// A room is the one asked for: by its id where one is given, else by its exact name.
pub open spec fn is_wanted(
    chat: ChatSummary,
    room: Option<Seq<char>>,
    chat_id: Option<Seq<char>>,
) -> bool {
    match chat_id {
        Some(id) => chat.chat_id@ == id,
        None => room == Some(chat.chat_name@),
    }
}

/// The room at `i` is the only one asked for.
pub open spec fn is_only_wanted(
    chats: Seq<ChatSummary>,
    room: Option<Seq<char>>,
    chat_id: Option<Seq<char>>,
    i: int,
) -> bool {
    &&& 0 <= i < chats.len()
    &&& is_wanted(chats[i], room, chat_id)
    &&& forall|j: int| 0 <= j < chats.len() && j != i ==> !is_wanted(#[trigger] chats[j], room, chat_id)
}

/// No other room has the title of the room at `i`.
pub open spec fn has_own_title(chats: Seq<ChatSummary>, i: int) -> bool {
    forall|j: int|
        0 <= j < chats.len() && j != i ==> (#[trigger] chats[j]).chat_name@ != chats[i].chat_name@
}

/// A text where there is one.
pub open spec fn text_of(text: Option<&str>) -> Option<Seq<char>> {
    match text {
        Some(text) => Some(text@),
        None => None,
    }
}

fn wants(chat: &ChatSummary, room: Option<&str>, chat_id: Option<&str>) -> (r: bool)
    ensures
        r == is_wanted(*chat, text_of(room), text_of(chat_id)),
{
    match chat_id {
        Some(id) => same_text(chat.chat_id.as_str(), id),
        None => match room {
            Some(name) => same_text(chat.chat_name.as_str(), name),
            None => false,
        },
    }
}

/// The place of the room to deliver to. It must be the only one asked for, and no other room may
/// share its title, since a window shows nothing else.
pub fn choose_target(
    chats: &Vec<ChatSummary>,
    room: Option<&str>,
    chat_id: Option<&str>,
) -> (r: Result<usize, SourceError>)
    ensures
        match r {
            Ok(i) => is_only_wanted(chats@, text_of(room), text_of(chat_id), i as int)
                && has_own_title(chats@, i as int),
            Err(error) => {
                ||| says(error, TARGET_MISSING@) && forall|i: int|
                    !is_only_wanted(chats@, text_of(room), text_of(chat_id), i)
                ||| says(error, TITLE_SHARED@) && exists|i: int|
                    is_only_wanted(chats@, text_of(room), text_of(chat_id), i) && !has_own_title(
                        chats@,
                        i,
                    )
            },
        },
{
    let ghost name = text_of(room);
    let ghost id = text_of(chat_id);
    let mut found: Option<usize> = None;
    for i in 0..chats.len()
        invariant
            name == text_of(room),
            id == text_of(chat_id),
            match found {
                Some(k) => k < i && is_wanted(chats@[k as int], name, id) && forall|j: int|
                    0 <= j < i && j != k ==> !is_wanted(#[trigger] chats@[j], name, id),
                None => forall|j: int| 0 <= j < i ==> !is_wanted(#[trigger] chats@[j], name, id),
            },
    {
        if wants(&chats[i], room, chat_id) {
            match found {
                Some(k) => {
                    assert forall|j: int| !is_only_wanted(chats@, name, id, j) by {
                        if j == k {
                            assert(is_wanted(chats@[i as int], name, id));
                        } else if 0 <= j < chats@.len() {
                            assert(is_wanted(chats@[k as int], name, id));
                        }
                    }
                    return Err(source_error(TARGET_MISSING));
                },
                None => {
                    found = Some(i);
                },
            }
        }
    }
    match found {
        Some(target) => {
            assert(is_only_wanted(chats@, name, id, target as int));
            for i in 0..chats.len()
                invariant
                    target < chats.len(),
                    name == text_of(room),
                    id == text_of(chat_id),
                    is_only_wanted(chats@, name, id, target as int),
                    forall|j: int|
                        0 <= j < i && j != target ==> (#[trigger] chats@[j]).chat_name@
                            != chats@[target as int].chat_name@,
            {
                if i != target && same_text(
                    chats[i].chat_name.as_str(),
                    chats[target].chat_name.as_str(),
                ) {
                    assert(!has_own_title(chats@, target as int)) by {
                        assert(chats@[i as int].chat_name@ == chats@[target as int].chat_name@);
                    }
                    return Err(source_error(TITLE_SHARED));
                }
            }
            Ok(target)
        },
        None => Err(source_error(TARGET_MISSING)),
    }
}

/// The window at `i` is the only one with a title.
pub open spec fn is_only_titled(titles: Seq<String>, name: Seq<char>, i: int) -> bool {
    &&& 0 <= i < titles.len()
    &&& titles[i]@ == name
    &&& forall|j: int| 0 <= j < titles.len() && j != i ==> (#[trigger] titles[j])@ != name
}

/// The place of the room's window: the only one with its exact title.
pub fn choose_window(titles: &Vec<String>, name: &str) -> (r: Result<usize, SourceError>)
    ensures
        match r {
            Ok(i) => is_only_titled(titles@, name@, i as int),
            Err(error) => says(error, WINDOW_MISSING@) && forall|i: int|
                !is_only_titled(titles@, name@, i),
        },
{
    let mut found: Option<usize> = None;
    for i in 0..titles.len()
        invariant
            match found {
                Some(k) => k < i && titles@[k as int]@ == name@ && forall|j: int|
                    0 <= j < i && j != k ==> (#[trigger] titles@[j])@ != name@,
                None => forall|j: int| 0 <= j < i ==> (#[trigger] titles@[j])@ != name@,
            },
    {
        if same_text(titles[i].as_str(), name) {
            match found {
                Some(k) => {
                    assert forall|j: int| !is_only_titled(titles@, name@, j) by {
                        if j == k {
                            assert(titles@[i as int]@ == name@);
                        } else if 0 <= j < titles@.len() {
                            assert(titles@[k as int]@ == name@);
                        }
                    }
                    return Err(source_error(WINDOW_MISSING));
                },
                None => {
                    found = Some(i);
                },
            }
        }
    }
    match found {
        Some(i) => Ok(i),
        None => Err(source_error(WINDOW_MISSING)),
    }
}

/// Whether a control of a class is one that texts are composed in.
pub fn is_compose_class(class: &str) -> (r: bool)
    ensures
        r == (same_but_case(class@, "RichEdit50W"@) || same_but_case(class@, "RichEdit20W"@)),
{
    eq_ignore_case(class, "RichEdit50W") || eq_ignore_case(class, "RichEdit20W")
}

/// Checks that a window has exactly one control to compose in.
pub fn check_compose_count(found: usize) -> (r: Result<(), SourceError>)
    ensures
        r is Ok <==> found == 1,
        r is Err ==> says(r->Err_0, COMPOSE_AMBIGUOUS@),
{
    if found == 1 {
        Ok(())
    } else {
        Err(source_error(COMPOSE_AMBIGUOUS))
    }
}

/// Checks the length that a control gives for its text before room is made for it.
pub fn check_control_length(length: usize) -> (r: Result<(), SourceError>)
    ensures
        r is Ok <==> length <= MAX_CONTROL_TEXT,
        r is Err ==> says(r->Err_0, CONTROL_TOO_LONG@),
{
    if length > MAX_CONTROL_TEXT {
        Err(source_error(CONTROL_TOO_LONG))
    } else {
        Ok(())
    }
}

/// The text that a control gave: no more of it than it had told, and well-formed.
pub fn control_text(length: usize, got: usize, buffer: &[u16]) -> (r: Result<String, SourceError>)
    requires
        got <= length ==> got <= buffer@.len(),
    ensures
        if got > length {
            r is Err && says(r->Err_0, CONTROL_CHANGED@)
        } else {
            match r {
                Ok(text) => utf16_encoded(text@) == buffer@.take(got as int),
                Err(error) => says(error, CONTROL_INVALID@) && forall|s: Seq<char>| #[trigger]
                    utf16_encoded(s) != buffer@.take(got as int),
            }
        },
{
    if got > length {
        return Err(source_error(CONTROL_CHANGED));
    }
    let units: &[u16] = vstd::slice::slice_subrange(buffer, 0, got);
    assert(units@ =~= buffer@.take(got as int));
    match utf16_text(units) {
        Some(text) => Ok(text),
        None => Err(source_error(CONTROL_INVALID)),
    }
}

/// The name of the lock that serializes sends to one run of the program.
pub fn lock_name(process: u32) -> (r: String)
    ensures
        r@ == "Local\\LazyKatokSend-"@ + decimal(process as nat),
{
    let mut name: String = "Local\\LazyKatokSend-".to_owned();
    name.append(decimal_text(process as u64).as_str());
    name
}

/// What came of asking for the lock.
#[derive(Debug, Clone, Copy, PartialEq, Eq, Structural)]
pub enum LockAnswer {
    Acquired,
    /// Its last holder ended without giving it back.
    Abandoned,
    Held,
}

/// Checks what came of asking for the lock: a send starts only where no other is under way, and
/// none was cut off.
pub fn check_lock(answer: LockAnswer) -> (r: Result<(), SourceError>)
    ensures
        match answer {
            LockAnswer::Acquired => r is Ok,
            LockAnswer::Abandoned => r is Err && says(r->Err_0, SEND_INTERRUPTED@),
            LockAnswer::Held => r is Err && says(r->Err_0, SEND_BUSY@),
        },
{
    match answer {
        LockAnswer::Acquired => Ok(()),
        LockAnswer::Abandoned => Err(source_error(SEND_INTERRUPTED)),
        LockAnswer::Held => Err(source_error(SEND_BUSY)),
    }
}

/// Checks the text to deliver.
pub fn check_body(body: Option<&str>) -> (r: Result<String, SourceError>)
    ensures
        match body {
            Some(text) => if is_sendable(text@) {
                r is Ok && r->Ok_0@ == text@
            } else {
                r is Err && says(r->Err_0, BAD_TEXT@)
            },
            None => r is Err && says(r->Err_0, BODY_MISSING@),
        },
{
    match body {
        Some(text) => match validate_text(text) {
            Ok(()) => Ok(text.to_owned()),
            Err(error) => Err(error),
        },
        None => Err(source_error(BODY_MISSING)),
    }
}

/// The message is one of the room.
pub open spec fn in_room(m: RawMessage, chat_id: Seq<char>) -> bool {
    m.chat_id@ == chat_id
}

/// The id is one of the room's messages.
pub open spec fn is_known(messages: Seq<RawMessage>, chat_id: Seq<char>, id: Seq<char>) -> bool {
    exists|i: int|
        0 <= i < messages.len() && in_room(#[trigger] messages[i], chat_id)
            && messages[i].message_id@ == id
}

/// The messages that a room had before a delivery.
pub struct Baseline {
    ids: StringHashSet,
}

impl View for Baseline {
    type V = Set<Seq<char>>;

    closed spec fn view(&self) -> Set<Seq<char>> {
        self.ids@
    }
}

impl Baseline {
    /// The ids of a room's messages.
    pub fn of(messages: &Vec<RawMessage>, chat_id: &str) -> (r: Self)
        ensures
            forall|id: Seq<char>| #[trigger] r@.contains(id) == is_known(messages@, chat_id@, id),
    {
        let mut ids: StringHashSet = StringHashSet::new();
        for i in 0..messages.len()
            invariant
                forall|id: Seq<char>| #[trigger]
                    ids@.contains(id) == is_known(messages@.take(i as int), chat_id@, id),
        {
            let ghost before = ids@;
            let ghost front = messages@.take(i as int);
            let ghost next = messages@.take(i + 1);
            if same_text(messages[i].chat_id.as_str(), chat_id) {
                ids.insert(messages[i].message_id.clone());
            }
            assert forall|id: Seq<char>| #[trigger] ids@.contains(id) == is_known(
                next,
                chat_id@,
                id,
            ) by {
                assert(before.contains(id) == is_known(front, chat_id@, id));
                if is_known(front, chat_id@, id) {
                    let k = choose|k: int|
                        0 <= k < front.len() && in_room(#[trigger] front[k], chat_id@)
                            && front[k].message_id@ == id;
                    assert(in_room(next[k], chat_id@));
                }
                if is_known(next, chat_id@, id) {
                    let k = choose|k: int|
                        0 <= k < next.len() && in_room(#[trigger] next[k], chat_id@)
                            && next[k].message_id@ == id;
                    if k < i {
                        assert(in_room(front[k], chat_id@));
                    }
                }
                assert(next[i as int] == messages@[i as int]);
                if in_room(next[i as int], chat_id@) && next[i as int].message_id@ == id {
                    assert(is_known(next, chat_id@, id));
                }
            }
        }
        assert(messages@.take(messages@.len() as int) =~= messages@);
        Baseline { ids }
    }
}

/// Some message of the room was known.
pub open spec fn has_baseline(messages: Seq<RawMessage>, chat_id: Seq<char>) -> bool {
    exists|i: int| 0 <= i < messages.len() && in_room(#[trigger] messages[i], chat_id)
}

fn knows_room(messages: &Vec<RawMessage>, chat_id: &str) -> (r: bool)
    ensures
        r == has_baseline(messages@, chat_id@),
{
    for i in 0..messages.len()
        invariant
            forall|j: int| 0 <= j < i ==> !in_room(#[trigger] messages@[j], chat_id@),
    {
        if same_text(messages[i].chat_id.as_str(), chat_id) {
            assert(in_room(messages@[i as int], chat_id@));
            return true;
        }
        assert(!in_room(messages@[i as int], chat_id@));
    }
    false
}

/// Checks a room before its compose box is touched: the box must be empty, and unless the text is
/// only left there, the room's messages must be readable, or a delivery could not be told.
pub fn prepare_delivery(
    compose_text: &str,
    messages: &Vec<RawMessage>,
    chat_id: &str,
    draft: bool,
) -> (r: Result<Baseline, SourceError>)
    ensures
        if compose_text@.len() > 0 {
            r is Err && says(r->Err_0, DRAFT_PRESENT@)
        } else if !draft && !has_baseline(messages@, chat_id@) {
            r is Err && says(r->Err_0, NO_BASELINE@)
        } else {
            r is Ok && forall|id: Seq<char>| #[trigger]
                r->Ok_0@.contains(id) == is_known(messages@, chat_id@, id)
        },
{
    if !compose_text.is_empty() {
        return Err(source_error(DRAFT_PRESENT));
    }
    if !draft && !knows_room(messages, chat_id) {
        return Err(source_error(NO_BASELINE));
    }
    Ok(Baseline::of(messages, chat_id))
}

/// A text with each carriage return before a line feed left out.
pub open spec fn unix_lines(text: Seq<char>) -> Seq<char>
    decreases text.len(),
{
    if text.len() == 0 {
        Seq::empty()
    } else if text.len() >= 2 && text[0] == '\r' && text[1] == '\n' {
        seq!['\n'] + unix_lines(text.skip(2))
    } else {
        seq![text[0]] + unix_lines(text.skip(1))
    }
}

fn to_unix_lines(text: &str) -> (r: String)
    ensures
        r@ == unix_lines(text@),
{
    let chars: Vec<char> = chars_of(text);
    let mut out: Vec<char> = Vec::new();
    let mut i: usize = 0;
    assert(chars@.skip(0) =~= chars@);
    while i < chars.len()
        invariant
            chars@ == text@,
            i <= chars.len(),
            out@ + unix_lines(chars@.skip(i as int)) =~= unix_lines(text@),
        decreases chars.len() - i,
    {
        let ghost rest = chars@.skip(i as int);
        let ghost front = out@;
        assert(rest.skip(1) =~= chars@.skip(i + 1));
        if i + 1 < chars.len() && chars[i] == '\r' && chars[i + 1] == '\n' {
            assert(rest.skip(2) =~= chars@.skip(i + 2));
            out.push('\n');
            assert(front + (seq!['\n'] + unix_lines(chars@.skip(i + 2))) =~= out@ + unix_lines(
                chars@.skip(i + 2),
            ));
            i = i + 2;
        } else {
            out.push(chars[i]);
            assert(front + (seq![rest[0]] + unix_lines(chars@.skip(i + 1))) =~= out@ + unix_lines(
                chars@.skip(i + 1),
            ));
            i = i + 1;
        }
    }
    assert(chars@.skip(i as int) =~= Seq::<char>::empty());
    string_of(&out)
}

/// Two texts are the same but for the way in which their lines end.
pub open spec fn same_body(a: Seq<char>, b: Seq<char>) -> bool {
    unix_lines(a) == unix_lines(b)
}

/// Whether two texts are the same but for the way in which their lines end.
pub fn bodies_match(a: &str, b: &str) -> (r: bool)
    ensures
        r == same_body(a@, b@),
{
    same_text(to_unix_lines(a).as_str(), to_unix_lines(b).as_str())
}

/// Checks what a control said to a text that was put into it.
pub fn check_accepted(answer: usize) -> (r: Result<(), SourceError>)
    ensures
        r is Ok <==> answer != 0,
        r is Err ==> says(r->Err_0, DRAFT_REJECTED@),
{
    if answer == 0 {
        Err(source_error(DRAFT_REJECTED))
    } else {
        Ok(())
    }
}

/// Checks that the window still shows the room.
pub fn check_title(title: &str, name: &str) -> (r: Result<(), SourceError>)
    ensures
        r is Ok <==> title@ == name@,
        r is Err ==> says(r->Err_0, DRAFT_CHANGED@),
{
    if same_text(title, name) {
        Ok(())
    } else {
        Err(source_error(DRAFT_CHANGED))
    }
}

/// Checks that the compose box still holds the text.
pub fn check_draft(compose_text: &str, body: &str) -> (r: Result<(), SourceError>)
    ensures
        r is Ok <==> same_body(compose_text@, body@),
        r is Err ==> says(r->Err_0, DRAFT_CHANGED@),
{
    if bodies_match(compose_text, body) {
        Ok(())
    } else {
        Err(source_error(DRAFT_CHANGED))
    }
}

/// Checks that the compose box still belongs to the program.
pub fn check_owner(process: u32, owner: u32) -> (r: Result<(), SourceError>)
    ensures
        r is Ok <==> process == owner,
        r is Err ==> says(r->Err_0, OWNER_CHANGED@),
{
    if process == owner {
        Ok(())
    } else {
        Err(source_error(OWNER_CHANGED))
    }
}

/// The message is the delivered text: it stands in the room, was not there before, and says the
/// same.
pub open spec fn is_delivery(
    m: RawMessage,
    chat_id: Seq<char>,
    baseline: Set<Seq<char>>,
    body: Seq<char>,
) -> bool {
    in_room(m, chat_id) && !baseline.contains(m.message_id@) && same_body(m.text@, body)
}

/// A delivery shows among the messages.
pub open spec fn shows_delivery(
    messages: Seq<RawMessage>,
    chat_id: Seq<char>,
    baseline: Set<Seq<char>>,
    body: Seq<char>,
) -> bool {
    exists|i: int|
        0 <= i < messages.len() && is_delivery(#[trigger] messages[i], chat_id, baseline, body)
}

/// Whether a delivery shows among the messages.
pub fn is_delivered(
    messages: &Vec<RawMessage>,
    chat_id: &str,
    baseline: &Baseline,
    body: &str,
) -> (r: bool)
    ensures
        r == shows_delivery(messages@, chat_id@, baseline@, body@),
{
    for i in 0..messages.len()
        invariant
            forall|j: int|
                0 <= j < i ==> !is_delivery(#[trigger] messages@[j], chat_id@, baseline@, body@),
    {
        if same_text(messages[i].chat_id.as_str(), chat_id) && !baseline.ids.contains(
            messages[i].message_id.as_str(),
        ) && bodies_match(messages[i].text.as_str(), body) {
            assert(is_delivery(messages@[i as int], chat_id@, baseline@, body@));
            return true;
        }
    }
    false
}

/// Whether a delivery is still waited for.
pub fn keeps_waiting(millis: u64) -> (r: bool)
    ensures
        r == (millis < CONFIRM_MILLIS),
{
    millis < CONFIRM_MILLIS
}

/// What came of a delivery.
#[derive(Debug, PartialEq, Eq)]
pub enum DeliveryReport {
    /// The room was found and nothing was written.
    Resolved { chat_id: String },
    /// The text was left in the compose box.
    Drafted { chat_id: String, chars: usize },
    /// The text was submitted and showed up in the room.
    Sent { chat_id: String, chars: usize },
}

/// What is told of a text that was written.
pub fn delivery_report(draft: bool, chat_id: &str, body: &str) -> (r: DeliveryReport)
    ensures
        match r {
            DeliveryReport::Resolved { chat_id: _ } => false,
            DeliveryReport::Drafted { chat_id: id, chars } => draft && id@ == chat_id@ && chars
                == body@.len(),
            DeliveryReport::Sent { chat_id: id, chars } => !draft && id@ == chat_id@ && chars
                == body@.len(),
        },
{
    let chars: usize = char_count(body);
    if draft {
        DeliveryReport::Drafted { chat_id: chat_id.to_owned(), chars }
    } else {
        DeliveryReport::Sent { chat_id: chat_id.to_owned(), chars }
    }
}

/// What is asked of a delivery, its text checked.
pub struct SendRequest {
    room: Option<String>,
    chat_id: Option<String>,
    body: Option<String>,
    dry_run: bool,
    draft: bool,
}

impl SendRequest {
    /// Whatever is not a dry run has a text that may be sent.
    #[verifier::type_invariant]
    spec fn well_formed(self) -> bool {
        !self.dry_run ==> self.body is Some && is_sendable(self.body->0@)
    }

    /// The name of the room that is asked for.
    pub closed spec fn room_name(&self) -> Option<Seq<char>> {
        optional_text(self.room)
    }

    /// The id of the room that is asked for.
    pub closed spec fn room_id(&self) -> Option<Seq<char>> {
        optional_text(self.chat_id)
    }

    /// The text.
    pub closed spec fn wording(&self) -> Option<Seq<char>> {
        optional_text(self.body)
    }

    /// Only the room and its compose box are looked for.
    pub closed spec fn is_dry_run(&self) -> bool {
        self.dry_run
    }

    /// The text is only left in the compose box.
    pub closed spec fn is_draft(&self) -> bool {
        self.draft
    }

    /// Asks for a delivery. The text is checked here, before anything else is looked at or
    /// touched; a dry run needs none.
    pub fn new(
        room: Option<&str>,
        chat_id: Option<&str>,
        body: Option<&str>,
        dry_run: bool,
        draft: bool,
    ) -> (r: Result<SendRequest, SourceError>)
        ensures
            match r {
                Ok(request) => {
                    &&& dry_run || (body is Some && is_sendable(body->0@))
                    &&& request.room_name() == text_of(room)
                    &&& request.room_id() == text_of(chat_id)
                    &&& request.wording() == text_of(body)
                    &&& request.is_dry_run() == dry_run
                    &&& request.is_draft() == draft
                },
                Err(error) => !dry_run && match body {
                    Some(text) => !is_sendable(text@) && says(error, BAD_TEXT@),
                    None => says(error, BODY_MISSING@),
                },
            },
    {
        if !dry_run {
            match check_body(body) {
                Ok(_) => {},
                Err(error) => {
                    return Err(error);
                },
            }
        }
        Ok(
            SendRequest {
                room: owned(room),
                chat_id: owned(chat_id),
                body: owned(body),
                dry_run,
                draft,
            },
        )
    }
}

fn owned(text: Option<&str>) -> (r: Option<String>)
    ensures
        optional_text(r) == text_of(text),
{
    match text {
        Some(text) => Some(text.to_owned()),
        None => None,
    }
}

fn borrowed(text: &Option<String>) -> (r: Option<&str>)
    ensures
        text_of(r) == optional_text(*text),
{
    match text {
        Some(text) => Some(text.as_str()),
        None => None,
    }
}

/// How far a delivery has come, and so what is to be done next.
#[derive(Debug, Clone, Copy, PartialEq, Eq, Structural)]
pub enum Stage {
    /// The windows are listed.
    FindingWindow,
    /// The controls of the window are counted.
    FindingControl,
    /// The compose box and the room's messages are read.
    ReadingDraft,
    /// The text is put into the compose box.
    Writing,
    /// The title of the window is read again.
    ConfirmingTitle,
    /// The compose box is read again.
    ConfirmingText,
    /// The owner of the compose box is read.
    ConfirmingOwner,
    /// The text is submitted, once.
    Submitting,
    /// The room's messages are read until the text shows.
    Waiting,
    /// Nothing more is done.
    Finished,
}

/// The place of a stage in the order of stages.
pub open spec fn stage_rank(stage: Stage) -> nat {
    match stage {
        Stage::FindingWindow => 0,
        Stage::FindingControl => 1,
        Stage::ReadingDraft => 2,
        Stage::Writing => 3,
        Stage::ConfirmingTitle => 4,
        Stage::ConfirmingText => 5,
        Stage::ConfirmingOwner => 6,
        Stage::Submitting => 7,
        Stage::Waiting => 8,
        Stage::Finished => 9,
    }
}

/// A stage may come directly after another: each comes after the one before it, waiting may go
/// on, and any may be the last.
pub open spec fn may_follow(before: Stage, after: Stage) -> bool {
    ||| stage_rank(after) == stage_rank(before) + 1
    ||| before == Stage::Waiting && after == Stage::Waiting
    ||| after == Stage::Finished && before != Stage::Finished
}

/// What a delivery holds.
pub struct DeliveryView {
    pub stage: Stage,
    pub chat_id: Seq<char>,
    pub name: Seq<char>,
    pub body: Option<Seq<char>>,
    pub dry_run: bool,
    pub draft: bool,
    pub process: u32,
    pub known: Set<Seq<char>>,
}

impl DeliveryView {
    /// The same delivery at another stage.
    pub open spec fn at(self, stage: Stage) -> DeliveryView {
        DeliveryView { stage, ..self }
    }

    /// Whatever is not a dry run has a text that may be sent; a delivery that came past the window
    /// and its control is no dry run, and one that submits is no draft.
    pub open spec fn is_sound(self) -> bool {
        &&& !self.dry_run ==> self.body is Some && is_sendable(self.body->0)
        &&& 2 <= stage_rank(self.stage) <= 8 ==> !self.dry_run
        &&& 7 <= stage_rank(self.stage) <= 8 ==> !self.draft
    }
}

/// The delivery of one text to one room, from the search for its window to the message that
/// confirms it.
pub struct Delivery {
    stage: Stage,
    chat_id: String,
    name: String,
    body: Option<String>,
    dry_run: bool,
    draft: bool,
    process: u32,
    baseline: Baseline,
}

impl View for Delivery {
    type V = DeliveryView;

    closed spec fn view(&self) -> DeliveryView {
        DeliveryView {
            stage: self.stage,
            chat_id: self.chat_id@,
            name: self.name@,
            body: optional_text(self.body),
            dry_run: self.dry_run,
            draft: self.draft,
            process: self.process,
            known: self.baseline@,
        }
    }
}

/// The delivery failed with these words and is over.
pub open spec fn fails(
    before: DeliveryView,
    after: DeliveryView,
    error: SourceError,
    words: Seq<char>,
) -> bool {
    after == before.at(Stage::Finished) && says(error, words)
}

impl Delivery {
    /// Aims at a room. It must be the only one asked for, and the only one of its title.
    pub fn aim(request: SendRequest, chats: &Vec<ChatSummary>, process: u32) -> (r: Result<
        Delivery,
        SourceError,
    >)
        ensures
            match r {
                Ok(delivery) => delivery@.is_sound() && exists|i: int|
                    {
                        &&& #[trigger] is_only_wanted(
                            chats@,
                            request.room_name(),
                            request.room_id(),
                            i,
                        )
                        &&& has_own_title(chats@, i)
                        &&& delivery@ == (DeliveryView {
                            stage: Stage::FindingWindow,
                            chat_id: chats@[i].chat_id@,
                            name: chats@[i].chat_name@,
                            body: request.wording(),
                            dry_run: request.is_dry_run(),
                            draft: request.is_draft(),
                            process,
                            known: Set::empty(),
                        })
                    },
                Err(error) => {
                    ||| says(error, TARGET_MISSING@) && forall|i: int|
                        !is_only_wanted(chats@, request.room_name(), request.room_id(), i)
                    ||| says(error, TITLE_SHARED@) && exists|i: int|
                        is_only_wanted(chats@, request.room_name(), request.room_id(), i)
                            && !has_own_title(chats@, i)
                },
            },
    {
        proof {
            use_type_invariant(&request);
        }
        match choose_target(chats, borrowed(&request.room), borrowed(&request.chat_id)) {
            Ok(i) => {
                assert(is_only_wanted(
                    chats@,
                    request.room_name(),
                    request.room_id(),
                    i as int,
                ));
                Ok(
                    Delivery {
                        stage: Stage::FindingWindow,
                        chat_id: chats[i].chat_id.clone(),
                        name: chats[i].chat_name.clone(),
                        body: owned(borrowed(&request.body)),
                        dry_run: request.dry_run,
                        draft: request.draft,
                        process,
                        baseline: Baseline { ids: StringHashSet::new() },
                    },
                )
            },
            Err(error) => Err(error),
        }
    }

    /// How far the delivery has come.
    pub fn stage(&self) -> (r: Stage)
        ensures
            r == self@.stage,
    {
        self.stage
    }

    /// The text as it is put into the compose box: in UTF-16, with a zero behind it.
    pub fn wide_body(&self) -> (r: Vec<u16>)
        ensures
            r@ == match self@.body {
                Some(body) => utf16_encoded(body).push(0),
                None => seq![0u16],
            },
    {
        match &self.body {
            Some(body) => wide_text(body.as_str()),
            None => {
                let r: Vec<u16> = wide_text("");
                proof {
                    reveal_strlit("");
                    assert(utf16_encoded(""@) =~= Seq::<u16>::empty());
                }
                r
            },
        }
    }

    /// Takes in the titles of the windows and picks the room's.
    pub fn windows_listed(&mut self, titles: &Vec<String>) -> (r: Result<usize, SourceError>)
        requires
            old(self)@.stage == Stage::FindingWindow,
            old(self)@.is_sound(),
        ensures
            match r {
                Ok(i) => is_only_titled(titles@, old(self)@.name, i as int) && final(self)@
                    == old(self)@.at(Stage::FindingControl),
                Err(error) => fails(old(self)@, final(self)@, error, WINDOW_MISSING@)
                    && forall|i: int| !is_only_titled(titles@, old(self)@.name, i),
            },
            final(self)@.is_sound(),
            may_follow(old(self)@.stage, final(self)@.stage),
    {
        match choose_window(titles, self.name.as_str()) {
            Ok(i) => {
                self.stage = Stage::FindingControl;
                Ok(i)
            },
            Err(error) => {
                self.stage = Stage::Finished;
                Err(error)
            },
        }
    }

    /// Takes in how many controls to compose in the window has. A dry run ends here.
    pub fn controls_counted(&mut self, found: usize) -> (r: Result<
        Option<DeliveryReport>,
        SourceError,
    >)
        requires
            old(self)@.stage == Stage::FindingControl,
            old(self)@.is_sound(),
        ensures
            if found != 1 {
                r is Err && fails(old(self)@, final(self)@, r->Err_0, COMPOSE_AMBIGUOUS@)
            } else if old(self)@.dry_run {
                &&& final(self)@ == old(self)@.at(Stage::Finished)
                &&& r matches Ok(Some(DeliveryReport::Resolved { chat_id })) && chat_id@ == old(
                    self,
                )@.chat_id
            } else {
                &&& r == Ok::<Option<DeliveryReport>, SourceError>(None)
                &&& final(self)@ == old(self)@.at(Stage::ReadingDraft)
            },
            final(self)@.is_sound(),
            may_follow(old(self)@.stage, final(self)@.stage),
    {
        self.stage = Stage::Finished;
        match check_compose_count(found) {
            Ok(()) => {},
            Err(error) => {
                return Err(error);
            },
        }
        if self.dry_run {
            return Ok(Some(DeliveryReport::Resolved { chat_id: self.chat_id.clone() }));
        }
        self.stage = Stage::ReadingDraft;
        Ok(None)
    }

    /// Takes in what the compose box holds and which messages the room has.
    pub fn draft_read(&mut self, compose_text: &str, messages: &Vec<RawMessage>) -> (r: Result<
        (),
        SourceError,
    >)
        requires
            old(self)@.stage == Stage::ReadingDraft,
            old(self)@.is_sound(),
        ensures
            if compose_text@.len() > 0 {
                r is Err && fails(old(self)@, final(self)@, r->Err_0, DRAFT_PRESENT@)
            } else if !old(self)@.draft && !has_baseline(messages@, old(self)@.chat_id) {
                r is Err && fails(old(self)@, final(self)@, r->Err_0, NO_BASELINE@)
            } else {
                &&& r is Ok
                &&& final(self)@ == (DeliveryView {
                    stage: Stage::Writing,
                    known: final(self)@.known,
                    ..old(self)@
                })
                &&& forall|id: Seq<char>| #[trigger]
                    final(self)@.known.contains(id) == is_known(messages@, old(self)@.chat_id, id)
            },
            final(self)@.is_sound(),
            may_follow(old(self)@.stage, final(self)@.stage),
    {
        match prepare_delivery(compose_text, messages, self.chat_id.as_str(), self.draft) {
            Ok(baseline) => {
                self.baseline = baseline;
                self.stage = Stage::Writing;
                Ok(())
            },
            Err(error) => {
                self.stage = Stage::Finished;
                Err(error)
            },
        }
    }

    /// Takes in what the compose box said to the text.
    pub fn text_written(&mut self, answer: usize) -> (r: Result<(), SourceError>)
        requires
            old(self)@.stage == Stage::Writing,
            old(self)@.is_sound(),
        ensures
            if answer == 0 {
                r is Err && fails(old(self)@, final(self)@, r->Err_0, DRAFT_REJECTED@)
            } else {
                r is Ok && final(self)@ == old(self)@.at(Stage::ConfirmingTitle)
            },
            final(self)@.is_sound(),
            may_follow(old(self)@.stage, final(self)@.stage),
    {
        match check_accepted(answer) {
            Ok(()) => {
                self.stage = Stage::ConfirmingTitle;
                Ok(())
            },
            Err(error) => {
                self.stage = Stage::Finished;
                Err(error)
            },
        }
    }

    /// Takes in the title of the window after the text was written.
    pub fn title_read(&mut self, title: &str) -> (r: Result<(), SourceError>)
        requires
            old(self)@.stage == Stage::ConfirmingTitle,
            old(self)@.is_sound(),
        ensures
            if title@ == old(self)@.name {
                r is Ok && final(self)@ == old(self)@.at(Stage::ConfirmingText)
            } else {
                r is Err && fails(old(self)@, final(self)@, r->Err_0, DRAFT_CHANGED@)
            },
            final(self)@.is_sound(),
            may_follow(old(self)@.stage, final(self)@.stage),
    {
        match check_title(title, self.name.as_str()) {
            Ok(()) => {
                self.stage = Stage::ConfirmingText;
                Ok(())
            },
            Err(error) => {
                self.stage = Stage::Finished;
                Err(error)
            },
        }
    }

    /// Takes in what the compose box holds after the text was written.
    pub fn text_read(&mut self, compose_text: &str) -> (r: Result<(), SourceError>)
        requires
            old(self)@.stage == Stage::ConfirmingText,
            old(self)@.is_sound(),
        ensures
            if same_body(compose_text@, old(self)@.body->0) {
                r is Ok && final(self)@ == old(self)@.at(Stage::ConfirmingOwner)
            } else {
                r is Err && fails(old(self)@, final(self)@, r->Err_0, DRAFT_CHANGED@)
            },
            final(self)@.is_sound(),
            may_follow(old(self)@.stage, final(self)@.stage),
    {
        self.stage = Stage::Finished;
        match &self.body {
            Some(body) => match check_draft(compose_text, body.as_str()) {
                Ok(()) => {
                    self.stage = Stage::ConfirmingOwner;
                    Ok(())
                },
                Err(error) => Err(error),
            },
            None => Err(source_error(DRAFT_CHANGED)),
        }
    }

    /// Takes in which process owns the compose box. A draft ends here; otherwise all is checked
    /// and the text may be submitted.
    pub fn owner_read(&mut self, owner: u32) -> (r: Result<Option<DeliveryReport>, SourceError>)
        requires
            old(self)@.stage == Stage::ConfirmingOwner,
            old(self)@.is_sound(),
        ensures
            if owner != old(self)@.process {
                r is Err && fails(old(self)@, final(self)@, r->Err_0, OWNER_CHANGED@)
            } else if old(self)@.draft {
                &&& final(self)@ == old(self)@.at(Stage::Finished)
                &&& r matches Ok(Some(DeliveryReport::Drafted { chat_id, chars })) && chat_id@
                    == old(self)@.chat_id && chars == old(self)@.body->0.len()
            } else {
                &&& r == Ok::<Option<DeliveryReport>, SourceError>(None)
                &&& final(self)@ == old(self)@.at(Stage::Submitting)
            },
            final(self)@.is_sound(),
            may_follow(old(self)@.stage, final(self)@.stage),
    {
        self.stage = Stage::Finished;
        match check_owner(self.process, owner) {
            Ok(()) => {},
            Err(error) => {
                return Err(error);
            },
        }
        if self.draft {
            let body: &str = match &self.body {
                Some(body) => body.as_str(),
                None => "",
            };
            return Ok(Some(delivery_report(true, self.chat_id.as_str(), body)));
        }
        self.stage = Stage::Submitting;
        Ok(None)
    }

    /// Takes in that the text was submitted, or that submitting it failed. It is never submitted
    /// again.
    pub fn submitted(&mut self, outcome: Result<(), SourceError>) -> (r: Result<(), SourceError>)
        requires
            old(self)@.stage == Stage::Submitting,
            old(self)@.is_sound(),
        ensures
            r == outcome,
            final(self)@ == if outcome is Ok {
                old(self)@.at(Stage::Waiting)
            } else {
                old(self)@.at(Stage::Finished)
            },
            final(self)@.is_sound(),
            may_follow(old(self)@.stage, final(self)@.stage),
    {
        self.stage = if outcome.is_ok() {
            Stage::Waiting
        } else {
            Stage::Finished
        };
        outcome
    }

    /// Takes in the messages that were read after the submission, or that they could not be
    /// read, and how long ago the submission was.
    pub fn looked(&mut self, messages: Option<&Vec<RawMessage>>, millis: u64) -> (r: Result<
        Option<DeliveryReport>,
        SourceError,
    >)
        requires
            old(self)@.stage == Stage::Waiting,
            old(self)@.is_sound(),
        ensures
            if messages is Some && shows_delivery(
                messages->0@,
                old(self)@.chat_id,
                old(self)@.known,
                old(self)@.body->0,
            ) {
                &&& final(self)@ == old(self)@.at(Stage::Finished)
                &&& r matches Ok(Some(DeliveryReport::Sent { chat_id, chars })) && chat_id@ == old(
                    self,
                )@.chat_id && chars == old(self)@.body->0.len()
            } else if millis < CONFIRM_MILLIS {
                r == Ok::<Option<DeliveryReport>, SourceError>(None) && final(self)@ == old(self)@
            } else {
                r is Err && fails(old(self)@, final(self)@, r->Err_0, UNCONFIRMED@)
            },
            final(self)@.is_sound(),
            may_follow(old(self)@.stage, final(self)@.stage),
    {
        let body: &str = match &self.body {
            Some(body) => body.as_str(),
            None => "",
        };
        let shown: bool = match messages {
            Some(messages) => is_delivered(
                messages,
                self.chat_id.as_str(),
                &self.baseline,
                body,
            ),
            None => false,
        };
        if shown {
            let report: DeliveryReport = delivery_report(false, self.chat_id.as_str(), body);
            self.stage = Stage::Finished;
            return Ok(Some(report));
        }
        if keeps_waiting(millis) {
            return Ok(None);
        }
        self.stage = Stage::Finished;
        Err(source_error(UNCONFIRMED))
    }
}

/// The stages of a delivery, one after the other.
pub open spec fn is_course(stages: Seq<Stage>) -> bool {
    forall|i: int|
        #![trigger stages[i]]
        0 <= i < stages.len() - 1 ==> may_follow(stages[i], stages[i + 1])
}

/// A text is written and submitted at most once: whatever comes back from the program, a delivery
/// never returns to a stage that it has left.
pub proof fn lemma_submitted_once(stages: Seq<Stage>, i: int, j: int)
    requires
        is_course(stages),
        0 <= i < j < stages.len(),
        stages[i] == stages[j],
    ensures
        stages[i] == Stage::Waiting,
{
    lemma_course_ascends(stages, i, i + 1);
    lemma_course_ascends(stages, i + 1, j);
    assert(may_follow(stages[i], stages[i + 1]));
}

proof fn lemma_course_ascends(stages: Seq<Stage>, i: int, j: int)
    requires
        is_course(stages),
        0 <= i <= j < stages.len(),
    ensures
        stage_rank(stages[i]) <= stage_rank(stages[j]),
    decreases j - i,
{
    if i < j {
        lemma_course_ascends(stages, i, j - 1);
        assert(may_follow(stages[j - 1], stages[j - 1 + 1]));
    }
}

/// Nothing is submitted that was not checked: on the way to the submission the compose box was
/// found empty and written once, and the title, the text and the owner were confirmed after that.
pub proof fn lemma_checked_before_submission(stages: Seq<Stage>, j: int)
    requires
        is_course(stages),
        0 <= j < stages.len(),
        stages[0] == Stage::FindingWindow,
        stages[j] == Stage::Submitting,
    ensures
        j == 7,
        stages[2] == Stage::ReadingDraft,
        stages[3] == Stage::Writing,
        stages[4] == Stage::ConfirmingTitle,
        stages[5] == Stage::ConfirmingText,
        stages[6] == Stage::ConfirmingOwner,
{
    lemma_early_course(stages, j);
    assert(stage_rank(stages[2]) == 2);
    assert(stage_rank(stages[3]) == 3);
    assert(stage_rank(stages[4]) == 4);
    assert(stage_rank(stages[5]) == 5);
    assert(stage_rank(stages[6]) == 6);
}

proof fn lemma_early_course(stages: Seq<Stage>, j: int)
    requires
        is_course(stages),
        0 <= j < stages.len(),
        stages[0] == Stage::FindingWindow,
        stage_rank(stages[j]) <= 7,
    ensures
        stage_rank(stages[j]) == j,
        forall|i: int| 0 <= i <= j ==> stage_rank(#[trigger] stages[i]) == i,
    decreases j,
{
    if j > 0 {
        assert(may_follow(stages[j - 1], stages[j - 1 + 1]));
        lemma_course_ascends(stages, j - 1, j);
        lemma_early_course(stages, j - 1);
    }
}

/// No message that a room had before a delivery is taken for it: while nothing new comes, a
/// delivery stays unconfirmed.
pub proof fn lemma_old_messages_confirm_nothing(
    before: Seq<RawMessage>,
    after: Seq<RawMessage>,
    chat_id: Seq<char>,
    baseline: Set<Seq<char>>,
    body: Seq<char>,
)
    requires
        forall|id: Seq<char>| #[trigger] baseline.contains(id) == is_known(before, chat_id, id),
        forall|i: int|
            0 <= i < after.len() && in_room(#[trigger] after[i], chat_id) ==> is_known(
                before,
                chat_id,
                after[i].message_id@,
            ),
    ensures
        !shows_delivery(after, chat_id, baseline, body),
{
    assert forall|i: int| 0 <= i < after.len() implies !is_delivery(
        #[trigger] after[i],
        chat_id,
        baseline,
        body,
    ) by {
        if in_room(after[i], chat_id) {
            assert(baseline.contains(after[i].message_id@));
        }
    }
}

/// A new message of the room with the delivered text confirms the delivery, whichever way its
/// lines end.
pub proof fn lemma_new_message_confirms(
    before: Seq<RawMessage>,
    m: RawMessage,
    chat_id: Seq<char>,
    baseline: Set<Seq<char>>,
    body: Seq<char>,
)
    requires
        forall|id: Seq<char>| #[trigger] baseline.contains(id) == is_known(before, chat_id, id),
        in_room(m, chat_id),
        !is_known(before, chat_id, m.message_id@),
        m.text@ == body || m.text@ == unix_lines(body) && !unix_lines(body).contains('\r'),
    ensures
        is_delivery(m, chat_id, baseline, body),
{
    assert(!baseline.contains(m.message_id@));
    if m.text@ != body {
        lemma_unix_lines_of_plain(unix_lines(body));
    }
}

/// A text without carriage returns keeps its lines.
pub proof fn lemma_unix_lines_of_plain(text: Seq<char>)
    requires
        !text.contains('\r'),
    ensures
        unix_lines(text) == text,
    decreases text.len(),
{
    if text.len() > 0 {
        assert(text[0] != '\r');
        assert forall|c: char| text.skip(1).contains(c) implies text.contains(c) by {
            let k = choose|k: int| 0 <= k < text.skip(1).len() && text.skip(1)[k] == c;
            assert(text[k + 1] == c);
        }
        lemma_unix_lines_of_plain(text.skip(1));
        assert(seq![text[0]] + text.skip(1) =~= text);
    } else {
        assert(text =~= Seq::<char>::empty());
    }
}

/// At most one room can be aimed at.
pub proof fn lemma_target_is_unique(
    chats: Seq<ChatSummary>,
    room: Option<Seq<char>>,
    chat_id: Option<Seq<char>>,
    i: int,
    j: int,
)
    requires
        is_only_wanted(chats, room, chat_id, i),
        is_only_wanted(chats, room, chat_id, j),
    ensures
        i == j,
{
    if i != j {
        assert(is_wanted(chats[j], room, chat_id));
    }
}

/// A room is found by its id alone where an id is given, and by its exact name otherwise; no other
/// room answers to that.
pub proof fn lemma_target_answers_to_id_or_name(
    chats: Seq<ChatSummary>,
    room: Option<Seq<char>>,
    chat_id: Option<Seq<char>>,
    i: int,
)
    ensures
        chat_id is Some ==> (is_only_wanted(chats, room, chat_id, i) <==> 0 <= i < chats.len()
            && chats[i].chat_id@ == chat_id->0 && forall|j: int|
            0 <= j < chats.len() && j != i ==> (#[trigger] chats[j]).chat_id@ != chat_id->0),
        chat_id is None && room is Some ==> (is_only_wanted(chats, room, chat_id, i) <==> 0 <= i
            < chats.len() && chats[i].chat_name@ == room->0 && forall|j: int|
            0 <= j < chats.len() && j != i ==> (#[trigger] chats[j]).chat_name@ != room->0),
        chat_id is None && room is None ==> !is_only_wanted(chats, room, chat_id, i),
{
    if chat_id is Some {
        if is_only_wanted(chats, room, chat_id, i) {
            assert forall|j: int| 0 <= j < chats.len() && j != i implies (
            #[trigger] chats[j]).chat_id@ != chat_id->0 by {
                assert(!is_wanted(chats[j], room, chat_id));
            }
        }
    } else if room is Some {
        if is_only_wanted(chats, room, chat_id, i) {
            assert forall|j: int| 0 <= j < chats.len() && j != i implies (
            #[trigger] chats[j]).chat_name@ != room->0 by {
                assert(!is_wanted(chats[j], room, chat_id));
            }
        }
    }
}

/// A delivery is confirmed exactly by a message of the room whose id no earlier message of the
/// room had and whose text is the delivered one but for the line ends.
pub proof fn lemma_only_a_new_message_of_the_room_confirms(
    before: Seq<RawMessage>,
    after: Seq<RawMessage>,
    chat_id: Seq<char>,
    baseline: Set<Seq<char>>,
    body: Seq<char>,
)
    requires
        forall|id: Seq<char>| #[trigger] baseline.contains(id) == is_known(before, chat_id, id),
    ensures
        shows_delivery(after, chat_id, baseline, body) <==> exists|i: int|
            {
                &&& 0 <= i < after.len()
                &&& (#[trigger] after[i]).chat_id@ == chat_id
                &&& forall|k: int|
                    0 <= k < before.len() && (#[trigger] before[k]).chat_id@ == chat_id
                        ==> before[k].message_id@ != after[i].message_id@
                &&& unix_lines(after[i].text@) == unix_lines(body)
            },
{
    assert forall|i: int| 0 <= i < after.len() implies is_delivery(
        #[trigger] after[i],
        chat_id,
        baseline,
        body,
    ) == (after[i].chat_id@ == chat_id && unix_lines(after[i].text@) == unix_lines(body) && (
    forall|k: int|
        0 <= k < before.len() && (#[trigger] before[k]).chat_id@ == chat_id
            ==> before[k].message_id@ != after[i].message_id@)) by {
        let id = after[i].message_id@;
        assert(baseline.contains(id) == is_known(before, chat_id, id));
        if exists|k: int|
            0 <= k < before.len() && (#[trigger] before[k]).chat_id@ == chat_id
                && before[k].message_id@ == id {
            let k = choose|k: int|
                0 <= k < before.len() && (#[trigger] before[k]).chat_id@ == chat_id
                    && before[k].message_id@ == id;
            assert(in_room(before[k], chat_id));
        }
        if is_known(before, chat_id, id) {
            let k = choose|k: int|
                0 <= k < before.len() && in_room(#[trigger] before[k], chat_id)
                    && before[k].message_id@ == id;
            assert(before[k].chat_id@ == chat_id);
        }
    }
    if shows_delivery(after, chat_id, baseline, body) {
        let i = choose|i: int|
            0 <= i < after.len() && is_delivery(#[trigger] after[i], chat_id, baseline, body);
        assert(after[i].chat_id@ == chat_id);
    }
}

/// A room has a baseline exactly where one of its messages was seen.
pub proof fn lemma_baseline_is_a_message_of_the_room(
    messages: Seq<RawMessage>,
    chat_id: Seq<char>,
)
    ensures
        has_baseline(messages, chat_id) <==> exists|i: int|
            0 <= i < messages.len() && (#[trigger] messages[i]).chat_id@ == chat_id,
{
    if exists|i: int| 0 <= i < messages.len() && (#[trigger] messages[i]).chat_id@ == chat_id {
        let i = choose|i: int|
            0 <= i < messages.len() && (#[trigger] messages[i]).chat_id@ == chat_id;
        assert(in_room(messages[i], chat_id));
    }
}

/// Line ends in two characters become line ends in one, wherever they stand.
pub proof fn lemma_line_ends_become_one_character(a: Seq<char>, b: Seq<char>)
    ensures
        unix_lines(a + seq!['\r', '\n'] + b) == unix_lines(a) + seq!['\n'] + unix_lines(b),
    decreases a.len(),
{
    let whole = a + seq!['\r', '\n'] + b;
    if a.len() == 0 {
        assert(whole.skip(2) =~= b);
        assert(whole[0] == '\r' && whole[1] == '\n');
        assert(unix_lines(whole) =~= unix_lines(a) + seq!['\n'] + unix_lines(b));
    } else if a.len() >= 2 && a[0] == '\r' && a[1] == '\n' {
        lemma_line_ends_become_one_character(a.skip(2), b);
        assert(whole.skip(2) =~= a.skip(2) + seq!['\r', '\n'] + b);
        assert(whole[0] == a[0] && whole[1] == a[1]);
        assert(unix_lines(whole) =~= unix_lines(a) + seq!['\n'] + unix_lines(b));
    } else {
        lemma_line_ends_become_one_character(a.skip(1), b);
        assert(whole.skip(1) =~= a.skip(1) + seq!['\r', '\n'] + b);
        assert(whole[0] == a[0]);
        if a.len() >= 2 {
            assert(whole[1] == a[1]);
        } else {
            assert(whole[1] == '\r');
        }
        assert(unix_lines(whole) =~= unix_lines(a) + seq!['\n'] + unix_lines(b));
    }
}

/// A text without line ends in two characters stays as it is.
pub proof fn lemma_other_texts_keep_their_lines(text: Seq<char>)
    requires
        forall|i: int| 0 <= i < text.len() - 1 ==> !((#[trigger] text[i]) == '\r' && text[i + 1]
            == '\n'),
    ensures
        unix_lines(text) == text,
    decreases text.len(),
{
    if text.len() > 0 {
        let rest = text.skip(1);
        assert forall|i: int| 0 <= i < rest.len() - 1 implies !((#[trigger] rest[i]) == '\r'
            && rest[i + 1] == '\n') by {
            assert(rest[i] == text[i + 1]);
        }
        if text.len() >= 2 {
            assert(!(text[0] == '\r' && text[1] == '\n'));
        }
        lemma_other_texts_keep_their_lines(rest);
        assert(seq![text[0]] + rest =~= text);
    } else {
        assert(text =~= Seq::<char>::empty());
    }
}

/// Nothing but carriage returns is left out of a text when its line ends are evened.
pub proof fn lemma_even_lines_keep_the_text(text: Seq<char>)
    ensures
        unix_lines(text).filter(|c: char| c != '\r') == text.filter(|c: char| c != '\r'),
    decreases text.len(),
{
    let kept = |c: char| c != '\r';
    reveal(Seq::filter);
    if text.len() == 0 {
        assert(unix_lines(text) =~= text);
    } else if text.len() >= 2 && text[0] == '\r' && text[1] == '\n' {
        let rest = text.skip(2);
        lemma_even_lines_keep_the_text(rest);
        assert(text =~= seq!['\r', '\n'] + rest);
        Seq::filter_distributes_over_add(seq!['\r', '\n'], rest, kept);
        Seq::filter_distributes_over_add(seq!['\n'], unix_lines(rest), kept);
        let both = seq!['\r', '\n'];
        assert(both.drop_last() =~= seq!['\r']);
        assert(seq!['\r'].drop_last() =~= Seq::<char>::empty());
        assert(seq!['\n'].drop_last() =~= Seq::<char>::empty());
        let none = Seq::<char>::empty();
        assert(none.filter(kept) =~= none);
        assert(seq!['\r'].filter(kept) =~= none);
        assert(seq!['\n'].filter(kept) =~= none.push('\n'));
        assert(both.filter(kept) =~= none.push('\n'));
    } else {
        let rest = text.skip(1);
        lemma_even_lines_keep_the_text(rest);
        assert(text =~= seq![text[0]] + rest);
        Seq::filter_distributes_over_add(seq![text[0]], rest, kept);
        Seq::filter_distributes_over_add(seq![text[0]], unix_lines(rest), kept);
    }
}

/// A dry run writes nothing and a draft is never submitted; whatever is written may be sent.
pub proof fn lemma_dry_runs_and_drafts_stop_short(delivery: DeliveryView)
    requires
        delivery.is_sound(),
    ensures
        delivery.dry_run ==> delivery.stage == Stage::FindingWindow || delivery.stage
            == Stage::FindingControl || delivery.stage == Stage::Finished,
        delivery.draft ==> delivery.stage != Stage::Submitting && delivery.stage != Stage::Waiting,
        delivery.stage == Stage::Writing || delivery.stage == Stage::Submitting
            ==> delivery.body is Some && is_sendable(delivery.body->0),
{
}

/// A window is taken for a room's exactly where it has the room's very name as its title and no
/// other window has; a room of which another shares the name is never aimed at.
pub proof fn lemma_window_has_the_only_title(
    titles: Seq<String>,
    name: Seq<char>,
    i: int,
    j: int,
    chats: Seq<ChatSummary>,
)
    ensures
        is_only_titled(titles, name, i) ==> 0 <= i < titles.len() && titles[i]@ == name,
        is_only_titled(titles, name, i) && is_only_titled(titles, name, j) ==> i == j,
        0 <= i < titles.len() && 0 <= j < titles.len() && i != j && titles[i]@ == name
            && titles[j]@ == name ==> !is_only_titled(titles, name, i),
        0 <= i < chats.len() && 0 <= j < chats.len() && i != j && chats[i].chat_name@
            == chats[j].chat_name@ ==> !has_own_title(chats, i),
{
}

/// The stages follow each other in one order, nothing is skipped on the way to the submission, and
/// nothing follows the end.
pub proof fn lemma_stages_follow_in_order(before: Stage, after: Stage)
    requires
        may_follow(before, after),
    ensures
        before != Stage::Finished,
        after == Stage::FindingControl ==> before == Stage::FindingWindow,
        after == Stage::ReadingDraft ==> before == Stage::FindingControl,
        after == Stage::Writing ==> before == Stage::ReadingDraft,
        after == Stage::ConfirmingTitle ==> before == Stage::Writing,
        after == Stage::ConfirmingText ==> before == Stage::ConfirmingTitle,
        after == Stage::ConfirmingOwner ==> before == Stage::ConfirmingText,
        after == Stage::Submitting ==> before == Stage::ConfirmingOwner,
        after == Stage::Waiting ==> before == Stage::Submitting || before == Stage::Waiting,
        after != Stage::FindingWindow,
{
}

/// The steps of a delivery refuse what could go astray: a lock that is not held, a window with more
/// or less than one compose box, a text that was refused, a changed title or owner; and it is
/// waited for eight seconds.
pub proof fn lemma_steps_refuse_what_could_go_astray(
    answer: LockAnswer,
    lock: Result<(), SourceError>,
    found: usize,
    compose: Result<(), SourceError>,
    accepted: usize,
    written: Result<(), SourceError>,
    title: &str,
    name: &str,
    shown: Result<(), SourceError>,
    process: u32,
    owner: u32,
    owned_by: Result<(), SourceError>,
    millis: u64,
    waiting: bool,
)
    requires
        call_ensures(check_lock, (answer,), lock),
        call_ensures(check_compose_count, (found,), compose),
        call_ensures(check_accepted, (accepted,), written),
        call_ensures(check_title, (title, name), shown),
        call_ensures(check_owner, (process, owner), owned_by),
        call_ensures(keeps_waiting, (millis,), waiting),
    ensures
        lock is Ok <==> answer == LockAnswer::Acquired,
        compose is Ok <==> found == 1,
        written is Ok <==> accepted != 0,
        shown is Ok <==> title@ == name@,
        owned_by is Ok <==> process == owner,
        waiting <==> millis < 8_000,
{
}

/// A compose box that holds something is never written over, and a text that is to be sent goes
/// only to a room whose messages are known, so that its arrival can be told.
pub proof fn lemma_nothing_is_written_over(
    compose_text: &str,
    messages: Vec<RawMessage>,
    chat_id: &str,
    draft: bool,
    r: Result<Baseline, SourceError>,
)
    requires
        call_ensures(prepare_delivery, (compose_text, &messages, chat_id, draft), r),
    ensures
        r is Ok ==> compose_text@.len() == 0,
        r is Ok && !draft ==> exists|i: int|
            0 <= i < messages@.len() && (#[trigger] messages@[i]).chat_id@ == chat_id@,
        compose_text@.len() == 0 && draft ==> r is Ok,
{
    lemma_baseline_is_a_message_of_the_room(messages@, chat_id@);
}

/// What is told of a text is its room and its length, and whether it was left or sent.
pub proof fn lemma_report_tells_left_or_sent(
    draft: bool,
    chat_id: &str,
    body: &str,
    r: DeliveryReport,
)
    requires
        call_ensures(delivery_report, (draft, chat_id, body), r),
    ensures
        r is Drafted <==> draft,
        r is Sent <==> !draft,
        r is Drafted ==> r->Drafted_chat_id@ == chat_id@ && r->Drafted_chars == body@.len(),
        r is Sent ==> r->Sent_chat_id@ == chat_id@ && r->Sent_chars == body@.len(),
{
}

} // verus!
