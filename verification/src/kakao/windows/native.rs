//! Which databases of a profile are read and with which keys: choosing the profile, telling the
//! database files apart, recognizing a key, and planning the read of the rooms.
use crate::adapters::{ReadOutput, SourceError};
use crate::chats::ChatSummary;
use crate::digits::{hex, hex_text};
use crate::kakao::names::NameTable;
use crate::kakao::windows::{
    gives_messages, is_whole, read_messages, says, source_error, DatabaseFault, MessageRow,
};
use crate::text::chars_of;
use crate::types::RawMessage;
use aes::cipher::{BlockDecrypt, KeyInit};
use sha2::Digest;
use vstd::hash_set::StringHashSet;
use vstd::prelude::*;
use vstd::utf8::encode_utf8;

verus! {

/// The bytes of a database page.
pub const PAGE_SIZE: usize = 4096;

/// The bytes of a raw key.
pub const KEY_SIZE: usize = 32;

/// The most directories below a profile that are searched for databases.
pub const MAX_DEPTH: usize = 3;

/// Milliseconds after which the running program is searched for keys again.
pub const SCAN_INTERVAL_MILLIS: u64 = 10_000;

/// Milliseconds after which a search for keys ends.
pub const SCAN_LIMIT_MILLIS: u64 = 20_000;

pub const PROFILE_UNAVAILABLE: &'static str = "KATOK_WINDOWS_PROFILE is unavailable";

pub const PROFILE_FOREIGN: &'static str =
    "KATOK_WINDOWS_PROFILE must name a KakaoTalk profile belonging to the current Windows user";

pub const PROFILE_AMBIGUOUS: &'static str =
    "Expected one Windows KakaoTalk profile. Sign in, or set KATOK_WINDOWS_PROFILE explicitly when multiple profiles exist.";

pub const PROCESS_AMBIGUOUS: &'static str =
    "Exactly one accessible KakaoTalk process for the current Windows user is required. Start KakaoTalk at the same privilege level and sign in.";

pub const LIST_MISSING: &'static str =
    "Windows chat list is missing; open the KakaoTalk chat list";

pub const LIST_LOCKED: &'static str =
    "Windows chat list is locked; open the KakaoTalk chat list, then retry";

pub const ROOM_AMBIGUOUS: &'static str =
    "Ambiguous Windows room database; sync was not completed";

/// What the profile variable says.
#[derive(Debug, Clone, Copy, PartialEq, Eq, Structural)]
pub enum ProfileSelection {
    /// It is not set.
    Unset,
    /// It names a directory that cannot be found.
    Unavailable,
    /// It names no profile of the user.
    Foreign,
    /// It names the profile at this place.
    Profile(usize),
}

/// The place of the profile to read. No account is guessed: without a selection there must be
/// exactly one.
pub fn choose_profile(profiles: usize, selection: ProfileSelection) -> (r: Result<
    usize,
    SourceError,
>)
    ensures
        match selection {
            ProfileSelection::Unset => if profiles == 1 {
                r == Ok::<usize, SourceError>(0)
            } else {
                r is Err && says(r->Err_0, PROFILE_AMBIGUOUS@)
            },
            ProfileSelection::Unavailable => r is Err && says(r->Err_0, PROFILE_UNAVAILABLE@),
            ProfileSelection::Foreign => r is Err && says(r->Err_0, PROFILE_FOREIGN@),
            ProfileSelection::Profile(place) => if place < profiles {
                r == Ok::<usize, SourceError>(place)
            } else {
                r is Err && says(r->Err_0, PROFILE_FOREIGN@)
            },
        },
{
    match selection {
        ProfileSelection::Unset => if profiles == 1 {
            Ok(0)
        } else {
            Err(source_error(PROFILE_AMBIGUOUS))
        },
        ProfileSelection::Unavailable => Err(source_error(PROFILE_UNAVAILABLE)),
        ProfileSelection::Foreign => Err(source_error(PROFILE_FOREIGN)),
        ProfileSelection::Profile(place) => if place < profiles {
            Ok(place)
        } else {
            Err(source_error(PROFILE_FOREIGN))
        },
    }
}

/// Checks that exactly one program of the user can be read.
pub fn check_process_count(found: usize) -> (r: Result<(), SourceError>)
    ensures
        r is Ok <==> found == 1,
        r is Err ==> says(r->Err_0, PROCESS_AMBIGUOUS@),
{
    if found == 1 {
        Ok(())
    } else {
        Err(source_error(PROCESS_AMBIGUOUS))
    }
}

/// The small letter of an ASCII capital; any other character itself.
pub open spec fn ascii_lower(c: char) -> char {
    if 'A' <= c <= 'Z' {
        ((c as u32) + 32) as char
    } else {
        c
    }
}

/// Two texts are the same but for the case of ASCII letters.
pub open spec fn same_but_case(a: Seq<char>, b: Seq<char>) -> bool {
    a.len() == b.len() && forall|i: int|
        0 <= i < a.len() ==> ascii_lower(#[trigger] a[i]) == ascii_lower(b[i])
}

fn lower_code(c: char) -> (r: u32)
    ensures
        r == ascii_lower(c) as u32,
{
    let code: u32 = c as u32;
    if 'A' <= c && c <= 'Z' {
        code + 32
    } else {
        code
    }
}

/// Whether two texts are the same but for the case of ASCII letters.
pub fn eq_ignore_case(a: &str, b: &str) -> (r: bool)
    ensures
        r == same_but_case(a@, b@),
{
    let x: Vec<char> = chars_of(a);
    let y: Vec<char> = chars_of(b);
    if x.len() != y.len() {
        return false;
    }
    for i in 0..x.len()
        invariant
            x@ == a@,
            y@ == b@,
            x.len() == y.len(),
            forall|j: int| 0 <= j < i ==> ascii_lower(#[trigger] x@[j]) == ascii_lower(y@[j]),
    {
        if lower_code(x[i]) != lower_code(y[i]) {
            assert(ascii_lower(x@[i as int]) != ascii_lower(y@[i as int]));
            return false;
        }
        assert(ascii_lower(x@[i as int]) == ascii_lower(y@[i as int]));
    }
    true
}

/// What `Sha256::digest` of the crate `sha2` returns.
pub uninterp spec fn sha256(bytes: Seq<u8>) -> Seq<u8>;

/// Calls `Sha256::digest` of the crate `sha2`. The digest is named; it has 32 bytes.
#[verifier::external_body]
fn sha256_digest(bytes: &[u8]) -> (r: Vec<u8>)
    ensures
        r@ == sha256(bytes@),
        r@.len() == 32,
{
    sha2::Sha256::digest(bytes).to_vec()
}

/// The hash that stands for an account: the SHA-256 digest of its profile's name, in hexadecimal.
pub fn account_hash(profile_name: &str) -> (r: String)
    ensures
        r@ == hex(sha256(encode_utf8(profile_name@))),
{
    hex_text(sha256_digest(profile_name.as_bytes()).as_slice())
}

/// What `decrypt_block` of `aes::Aes256` makes of a block under a key.
pub uninterp spec fn aes256_decrypted(key: Seq<u8>, block: Seq<u8>) -> Seq<u8>;

/// Calls `Aes256::new` and `decrypt_block` of the crate `aes`. The block is named; it keeps its
/// 16 bytes.
#[verifier::external_body]
fn aes256_decrypt(key: &[u8], block: &[u8]) -> (r: Vec<u8>)
    requires
        key@.len() == 32,
        block@.len() == 16,
    ensures
        r@ == aes256_decrypted(key@, block@),
        r@.len() == 16,
{
    let cipher = aes::Aes256::new(aes::cipher::Key::<aes::Aes256>::from_slice(key));
    let mut text = aes::cipher::Block::<aes::Aes256>::clone_from_slice(block);
    cipher.decrypt_block(&mut text);
    text.to_vec()
}

/// The numbers of bytes that a page may keep at its end.
pub open spec fn is_reserve(reserved: int) -> bool {
    ||| reserved == 80
    ||| reserved == 48
    ||| reserved == 64
    ||| reserved == 16
    ||| reserved == 32
    ||| reserved == 96
}

/// Byte `i` of the page header, given the decrypted block and the vector at the page's end.
pub open spec fn header_byte(block: Seq<u8>, page: Seq<u8>, reserved: int, i: int) -> u8 {
    block[i] ^ page[PAGE_SIZE - reserved + i]
}

/// The header says what the first page of a database says: pages of 4096 bytes, known format
/// versions, the reserve, and the fixed payload fractions.
pub open spec fn header_fits(block: Seq<u8>, page: Seq<u8>, reserved: int) -> bool {
    &&& header_byte(block, page, reserved, 0) == 0x10
    &&& header_byte(block, page, reserved, 1) == 0
    &&& 1 <= header_byte(block, page, reserved, 2) <= 2
    &&& 1 <= header_byte(block, page, reserved, 3) <= 2
    &&& header_byte(block, page, reserved, 4) == reserved
    &&& header_byte(block, page, reserved, 5) == 0x40
    &&& header_byte(block, page, reserved, 6) == 0x20
    &&& header_byte(block, page, reserved, 7) == 0x20
}

/// A decrypted block is that of a first page, for some reserve.
pub open spec fn is_first_block(block: Seq<u8>, page: Seq<u8>) -> bool {
    exists|reserved: int| is_reserve(reserved) && #[trigger] header_fits(block, page, reserved)
}

fn fits(block: &[u8], page: &[u8], reserved: usize) -> (r: bool)
    requires
        block@.len() == 16,
        page@.len() == PAGE_SIZE,
        is_reserve(reserved as int),
    ensures
        r == header_fits(block@, page@, reserved as int),
{
    let at: usize = PAGE_SIZE - reserved;
    let b2: u8 = block[2] ^ page[at + 2];
    let b3: u8 = block[3] ^ page[at + 3];
    (block[0] ^ page[at]) == 0x10 && (block[1] ^ page[at + 1]) == 0 && b2 >= 1 && b2 <= 2 && b3 >= 1
        && b3 <= 2 && (block[4] ^ page[at + 4]) == reserved as u8 && (block[5] ^ page[at + 5])
        == 0x40 && (block[6] ^ page[at + 6]) == 0x20 && (block[7] ^ page[at + 7]) == 0x20
}

/// Whether a decrypted block is that of a first page.
pub fn check_first_block(block: &[u8], page: &[u8]) -> (r: bool)
    requires
        block@.len() == 16,
        page@.len() == PAGE_SIZE,
    ensures
        r == is_first_block(block@, page@),
{
    if fits(block, page, 80) {
        assert(header_fits(block@, page@, 80));
        return true;
    }
    if fits(block, page, 48) {
        assert(header_fits(block@, page@, 48));
        return true;
    }
    if fits(block, page, 64) {
        assert(header_fits(block@, page@, 64));
        return true;
    }
    if fits(block, page, 16) {
        assert(header_fits(block@, page@, 16));
        return true;
    }
    if fits(block, page, 32) {
        assert(header_fits(block@, page@, 32));
        return true;
    }
    if fits(block, page, 96) {
        assert(header_fits(block@, page@, 96));
        return true;
    }
    false
}

/// Whether a key opens a database, going by its first page: what the key makes of the second
/// block must read as a page header.
pub fn key_matches(page: &[u8], key: &[u8]) -> (r: bool)
    requires
        page@.len() == PAGE_SIZE,
        key@.len() == KEY_SIZE,
    ensures
        r == is_first_block(aes256_decrypted(key@, page@.subrange(16, 32)), page@),
{
    let second: &[u8] = vstd::slice::slice_subrange(page, 16, 32);
    let block: Vec<u8> = aes256_decrypt(key, second);
    check_first_block(block.as_slice(), page)
}

/// The bytes before and behind a key that mark it out in memory, taken together with the key.
pub const RECORD_SPAN: usize = 89;

/// The bytes of memory that are read at a time.
pub const READ_STEP: usize = 1_048_576;

/// A part of a region of memory.
#[derive(Debug, Clone, Copy, PartialEq, Eq, Structural)]
pub struct Part {
    pub offset: usize,
    pub size: usize,
}

/// Part `index` of a region: it starts a record's span before its step and ends with the step or
/// with the region.
pub open spec fn part_of(length: nat, index: nat) -> (int, int) {
    let step = index * READ_STEP;
    let offset = if step >= RECORD_SPAN {
        step - RECORD_SPAN
    } else {
        0
    };
    let size = if READ_STEP + RECORD_SPAN <= length - offset {
        (READ_STEP + RECORD_SPAN) as int
    } else {
        length - offset
    };
    (offset, size)
}

/// Part `index` of a region, or nothing behind its end.
pub fn region_part(length: usize, index: usize) -> (r: Option<Part>)
    ensures
        r is Some <==> index * READ_STEP < length,
        r is Some ==> r->0.offset == part_of(length as nat, index as nat).0 && r->0.size
            == part_of(length as nat, index as nat).1,
{
    let step: u128 = {
        assert(index * READ_STEP <= 0xffff_ffff_ffff_ffff * 1_048_576) by (nonlinear_arith)
            requires
                index <= 0xffff_ffff_ffff_ffff,
                READ_STEP == 1_048_576,
        ;
        index as u128 * READ_STEP as u128
    };
    if step >= length as u128 {
        return None;
    }
    let offset: usize = (step as usize).saturating_sub(RECORD_SPAN);
    let rest: usize = length - offset;
    let size: usize = if READ_STEP + RECORD_SPAN <= rest {
        READ_STEP + RECORD_SPAN
    } else {
        rest
    };
    Some(Part { offset, size })
}

/// No record is cut in two: every span of a region lies within one of its parts.
pub proof fn lemma_parts_cover_records(length: nat, start: nat)
    requires
        start + RECORD_SPAN <= length,
    ensures
        exists|index: nat|
            {
                &&& index * READ_STEP < length
                &&& (#[trigger] part_of(length, index)).0 <= start
                &&& start + RECORD_SPAN <= part_of(length, index).0 + part_of(length, index).1
            },
{
    let index = start / (READ_STEP as nat);
    let next = index + 1;
    assert(index * READ_STEP <= start < next * READ_STEP) by (nonlinear_arith)
        requires
            index == start / (READ_STEP as nat),
            next == index + 1,
            READ_STEP == 1_048_576,
    ;
    assert(next * READ_STEP == index * READ_STEP + READ_STEP) by (nonlinear_arith)
        requires
            next == index + 1,
    ;
    if start + RECORD_SPAN > next * READ_STEP {
        let p = part_of(length, next);
        assert(p.0 <= start);
        assert(start + RECORD_SPAN <= p.0 + p.1);
    } else {
        let p = part_of(length, index);
        assert(p.0 <= start);
        assert(start + RECORD_SPAN <= p.0 + p.1);
    }
}

/// Where a key may start behind a mark.
pub open spec fn key_offset(which: int) -> int {
    if which == 0 {
        1
    } else if which == 1 {
        16
    } else if which == 2 {
        49
    } else {
        56
    }
}

/// A mark stands at `i`.
pub open spec fn is_mark(buffer: Seq<u8>, i: int) -> bool {
    1 <= i <= buffer.len() - 88 && buffer[i] == 0x88 && buffer[i - 1] < 8
}

/// How many bytes are zero.
pub open spec fn zeros(bytes: Seq<u8>) -> nat
    decreases bytes.len(),
{
    if bytes.len() == 0 {
        0
    } else {
        zeros(bytes.drop_last()) + if bytes.last() == 0 {
            1nat
        } else {
            0nat
        }
    }
}

/// A key may stand in `start` and the bytes behind it: hardly a byte of a key is zero.
pub open spec fn is_candidate(buffer: Seq<u8>, start: int) -> bool {
    zeros(buffer.subrange(start, start + KEY_SIZE)) <= 2
}

/// The places of candidates behind the mark at `i`, of the first `n` offsets.
pub open spec fn candidates_at(buffer: Seq<u8>, i: int, n: nat) -> Seq<int>
    decreases n,
{
    if n == 0 {
        Seq::empty()
    } else {
        let front = candidates_at(buffer, i, (n - 1) as nat);
        let start = i + key_offset(n - 1);
        if is_candidate(buffer, start) {
            front.push(start)
        } else {
            front
        }
    }
}

/// The places of candidates behind the marks before `end`.
pub open spec fn candidates_before(buffer: Seq<u8>, end: nat) -> Seq<int>
    decreases end,
{
    if end == 0 {
        Seq::empty()
    } else {
        let front = candidates_before(buffer, (end - 1) as nat);
        if is_mark(buffer, end - 1) {
            front + candidates_at(buffer, end - 1, 4)
        } else {
            front
        }
    }
}

fn count_zeros(bytes: &[u8]) -> (n: usize)
    ensures
        n == zeros(bytes@),
{
    let mut n: usize = 0;
    for i in 0..bytes.len()
        invariant
            n <= i,
            n == zeros(bytes@.take(i as int)),
    {
        assert(bytes@.take(i + 1).drop_last() =~= bytes@.take(i as int));
        if bytes[i] == 0 {
            n = n + 1;
        }
    }
    assert(bytes@.take(bytes@.len() as int) =~= bytes@);
    n
}

fn offset_of(which: usize) -> (r: usize)
    ensures
        r == key_offset(which as int),
        r <= 56,
{
    if which == 0 {
        1
    } else if which == 1 {
        16
    } else if which == 2 {
        49
    } else {
        56
    }
}

spec fn places(list: Seq<usize>) -> Seq<int> {
    list.map_values(|p: usize| p as int)
}

/// Where in a buffer a key may start, in the order in which the candidates are tried.
pub fn candidate_places(buffer: &[u8]) -> (r: Vec<usize>)
    ensures
        r@.map_values(|p: usize| p as int) == candidates_before(buffer@, buffer@.len()),
        forall|k: int| 0 <= k < r@.len() ==> (#[trigger] r@[k]) + KEY_SIZE <= buffer@.len(),
{
    let mut r: Vec<usize> = Vec::new();
    assert(places(r@) =~= Seq::<int>::empty());
    for i in 0..buffer.len()
        invariant
            places(r@) == candidates_before(buffer@, i as nat),
            forall|k: int| 0 <= k < r@.len() ==> (#[trigger] r@[k]) + KEY_SIZE <= buffer@.len(),
    {
        if i >= 1 && buffer.len() >= 88 && i <= buffer.len() - 88 && buffer[i] == 0x88 && buffer[i
            - 1] < 8 {
            let ghost front = places(r@);
            assert(front + candidates_at(buffer@, i as int, 0) =~= front);
            for which in 0..4usize
                invariant
                    1 <= i <= buffer@.len() - 88,
                    places(r@) == front + candidates_at(buffer@, i as int, which as nat),
                    forall|k: int|
                        0 <= k < r@.len() ==> (#[trigger] r@[k]) + KEY_SIZE <= buffer@.len(),
            {
                let length: usize = buffer.len();
                assert(i + 88 <= length);
                let start: usize = i + offset_of(which);
                let key: &[u8] = vstd::slice::slice_subrange(buffer, start, start + KEY_SIZE);
                let ghost list = r@;
                if count_zeros(key) <= 2 {
                    r.push(start);
                    assert(places(r@) =~= places(list).push(start as int));
                    assert(front + candidates_at(buffer@, i as int, which as nat).push(
                        start as int,
                    ) =~= (front + candidates_at(buffer@, i as int, which as nat)).push(
                        start as int,
                    ));
                }
            }
        }
    }
    r
}

pub const COMMITTED: u32 = 0x1000;

pub const PRIVATE: u32 = 0x20000;

pub const GUARDED: u32 = 0x100;

/// A region of memory that can be read: committed, private, not guarded, and of a readable kind.
pub open spec fn is_readable(state: u32, kind: u32, protection: u32) -> bool {
    let access = protection & 0xff;
    &&& state == COMMITTED
    &&& kind == PRIVATE
    &&& protection & GUARDED == 0
    &&& access == 0x02 || access == 0x04 || access == 0x08 || access == 0x20 || access == 0x40
        || access == 0x80
}

/// Whether a region of memory can be read.
pub fn can_read(state: u32, kind: u32, protection: u32) -> (r: bool)
    ensures
        r == is_readable(state, kind, protection),
{
    let access: u32 = protection & 0xff;
    state == COMMITTED && kind == PRIVATE && protection & GUARDED == 0 && (access == 0x02 || access
        == 0x04 || access == 0x08 || access == 0x20 || access == 0x40 || access == 0x80)
}

/// Whether the running program is to be searched for keys: it never was, or some time ago.
pub fn scan_due(millis_since_scan: Option<u64>) -> (r: bool)
    ensures
        r == (millis_since_scan is None || millis_since_scan->0 >= SCAN_INTERVAL_MILLIS),
{
    match millis_since_scan {
        Some(millis) => millis >= SCAN_INTERVAL_MILLIS,
        None => true,
    }
}

/// A database file of a profile, and whether its key is known.
#[derive(Debug, PartialEq, Eq)]
pub struct DatabaseFile {
    pub name: String,
    pub has_key: bool,
}

/// The places of the files with a name, among the first `n`.
pub open spec fn files_named(files: Seq<DatabaseFile>, name: Seq<char>, n: nat) -> Seq<int>
    decreases n,
{
    if n == 0 {
        Seq::empty()
    } else {
        let front = files_named(files, name, (n - 1) as nat);
        if same_but_case(files[n - 1].name@, name) {
            front.push(n - 1)
        } else {
            front
        }
    }
}

fn find_files(files: &Vec<DatabaseFile>, name: &str) -> (r: Vec<usize>)
    ensures
        r@.map_values(|p: usize| p as int) == files_named(files@, name@, files@.len()),
        forall|k: int| 0 <= k < r@.len() ==> (#[trigger] r@[k]) < files@.len(),
{
    let mut r: Vec<usize> = Vec::new();
    assert(places(r@) =~= Seq::<int>::empty());
    for i in 0..files.len()
        invariant
            places(r@) == files_named(files@, name@, i as nat),
            forall|k: int| 0 <= k < r@.len() ==> (#[trigger] r@[k]) < files@.len(),
    {
        if eq_ignore_case(files[i].name.as_str(), name) {
            let ghost list = r@;
            r.push(i);
            assert(places(r@) =~= places(list).push(i as int));
        }
    }
    r
}

/// The place of the chat list. It must be there and its key be known.
pub fn locate_chat_list(files: &Vec<DatabaseFile>) -> (r: Result<usize, SourceError>)
    ensures
        ({
            let found = files_named(files@, "chatListInfo.edb"@, files@.len());
            if found.len() == 0 {
                r is Err && says(r->Err_0, LIST_MISSING@)
            } else if !files@[found[0]].has_key {
                r is Err && says(r->Err_0, LIST_LOCKED@)
            } else {
                r is Ok && r->Ok_0 == found[0]
            }
        }),
{
    let found: Vec<usize> = find_files(files, "chatListInfo.edb");
    let ghost all = files_named(files@, "chatListInfo.edb"@, files@.len());
    assert(places(found@) == all);
    if found.len() == 0 {
        return Err(source_error(LIST_MISSING));
    }
    assert(places(found@)[0] == found@[0]);
    if files[found[0]].has_key {
        Ok(found[0])
    } else {
        Err(source_error(LIST_LOCKED))
    }
}

/// The places of the contact lists whose keys are known, among the first `n` files.
pub open spec fn contacts_at(files: Seq<DatabaseFile>, n: nat) -> Seq<int>
    decreases n,
{
    if n == 0 {
        Seq::empty()
    } else {
        let front = contacts_at(files, (n - 1) as nat);
        if same_but_case(files[n - 1].name@, "TalkUserDB.edb"@) && files[n - 1].has_key {
            front.push(n - 1)
        } else {
            front
        }
    }
}

/// The places of the contact lists that can be read. All of them are read, and the last one gives
/// the names.
pub fn locate_contacts(files: &Vec<DatabaseFile>) -> (r: Vec<usize>)
    ensures
        r@.map_values(|p: usize| p as int) == contacts_at(files@, files@.len()),
{
    let mut r: Vec<usize> = Vec::new();
    assert(places(r@) =~= Seq::<int>::empty());
    for i in 0..files.len()
        invariant
            places(r@) == contacts_at(files@, i as nat),
    {
        if files[i].has_key && eq_ignore_case(files[i].name.as_str(), "TalkUserDB.edb") {
            let ghost list = r@;
            r.push(i);
            assert(places(r@) =~= places(list).push(i as int));
        }
    }
    r
}

/// The name of a room's database.
pub open spec fn room_file(chat_id: Seq<char>) -> Seq<char> {
    "chatLogs_"@ + chat_id + ".edb"@
}

/// The files that could be a room's.
pub open spec fn room_files(files: Seq<DatabaseFile>, room: ChatSummary) -> Seq<int> {
    files_named(files, room_file(room.chat_id@), files.len())
}

/// The place of the file that a room is read from, if it has one and its key is known. A room
/// with two files spoils the read.
pub fn room_source(files: &Vec<DatabaseFile>, room: &ChatSummary) -> (r: Result<
    Option<usize>,
    SourceError,
>)
    ensures
        ({
            let found = room_files(files@, *room);
            if found.len() > 1 {
                r is Err && says(r->Err_0, ROOM_AMBIGUOUS@)
            } else if found.len() == 1 && files@[found[0]].has_key {
                r is Ok && r->Ok_0 is Some && r->Ok_0->0 == found[0]
            } else {
                r == Ok::<Option<usize>, SourceError>(None)
            }
        }),
{
    let mut name: String = "chatLogs_".to_owned();
    name.append(room.chat_id.as_str());
    name.append(".edb");
    let found: Vec<usize> = find_files(files, name.as_str());
    assert(places(found@) == room_files(files@, *room));
    if found.len() > 1 {
        return Err(source_error(ROOM_AMBIGUOUS));
    }
    if found.len() == 0 {
        return Ok(None);
    }
    assert(places(found@)[0] == found@[0]);
    if files[found[0]].has_key {
        Ok(Some(found[0]))
    } else {
        Ok(None)
    }
}

/// What came of reading a room.
#[derive(Debug)]
pub enum RoomRead {
    /// Its database is closed to us.
    Locked,
    /// Its messages.
    Messages(Vec<RawMessage>),
}

/// The messages of the rooms, one room behind the other.
pub open spec fn messages_of(reads: Seq<RoomRead>) -> Seq<RawMessage>
    decreases reads.len(),
{
    if reads.len() == 0 {
        Seq::empty()
    } else {
        messages_of(reads.drop_last()) + match reads.last() {
            RoomRead::Messages(messages) => messages@,
            RoomRead::Locked => Seq::empty(),
        }
    }
}

/// How many rooms were open.
pub open spec fn open_rooms(reads: Seq<RoomRead>) -> nat
    decreases reads.len(),
{
    if reads.len() == 0 {
        0
    } else {
        open_rooms(reads.drop_last()) + if reads.last() is Messages {
            1nat
        } else {
            0nat
        }
    }
}

/// Whatever was read of a room is a message of the room.
pub open spec fn is_read_of(room: ChatSummary, read: RoomRead) -> bool {
    read matches RoomRead::Messages(messages) ==> forall|k: int|
        0 <= k < messages@.len() ==> (#[trigger] messages@[k]).chat_id@ == room.chat_id@
}

/// What comes of a room: one without a file whose key is known is locked and gives no message,
/// and of any other its rows are read.
pub fn room_read(
    place: Option<usize>,
    rows: Result<Vec<Option<MessageRow>>, DatabaseFault>,
    room: &ChatSummary,
    account: &str,
    names: &NameTable,
) -> (r: Result<RoomRead, SourceError>)
    ensures
        place is None ==> r matches Ok(RoomRead::Locked),
        place is Some ==> match r {
            Ok(RoomRead::Messages(messages)) => gives_messages(
                rows,
                *room,
                account@,
                names@,
                Ok::<Vec<RawMessage>, SourceError>(messages),
            ),
            Ok(RoomRead::Locked) => false,
            Err(error) => gives_messages(
                rows,
                *room,
                account@,
                names@,
                Err::<Vec<RawMessage>, SourceError>(error),
            ),
        },
        r is Ok ==> is_read_of(*room, r->Ok_0),
{
    if place.is_none() {
        return Ok(RoomRead::Locked);
    }
    let ghost source = rows;
    match read_messages(rows, room, account, names) {
        Ok(messages) => {
            assert forall|k: int| 0 <= k < messages@.len() implies (
            #[trigger] messages@[k]).chat_id@ == room.chat_id@ by {
                let list = source->Ok_0@;
                assert(is_whole(list[k]));
            }
            Ok(RoomRead::Messages(messages))
        },
        Err(error) => Err(error),
    }
}

/// The chat is one of the list.
pub open spec fn is_listed(chats: Seq<ChatSummary>, chat_id: Seq<char>) -> bool {
    exists|i: int| 0 <= i < chats.len() && (#[trigger] chats[i]).chat_id@ == chat_id
}

proof fn lemma_messages_listed(chats: Seq<ChatSummary>, reads: Seq<RoomRead>)
    requires
        reads.len() <= chats.len(),
        forall|i: int| 0 <= i < reads.len() ==> is_read_of(chats[i], #[trigger] reads[i]),
    ensures
        forall|k: int|
            0 <= k < messages_of(reads).len() ==> is_listed(
                chats,
                (#[trigger] messages_of(reads)[k]).chat_id@,
            ),
    decreases reads.len(),
{
    if reads.len() > 0 {
        let front = reads.drop_last();
        assert forall|i: int| 0 <= i < front.len() implies is_read_of(
            chats[i],
            #[trigger] front[i],
        ) by {
            assert(is_read_of(chats[i], reads[i]));
        }
        lemma_messages_listed(chats, front);
        let n = reads.len() - 1;
        let above = messages_of(front);
        assert(is_read_of(chats[n], reads[n]));
        assert forall|k: int| 0 <= k < messages_of(reads).len() implies is_listed(
            chats,
            (#[trigger] messages_of(reads)[k]).chat_id@,
        ) by {
            if k < above.len() {
                assert(messages_of(reads)[k] == above[k]);
            } else {
                match reads[n] {
                    RoomRead::Messages(messages) => {
                        assert(messages_of(reads)[k] == messages@[k - above.len()]);
                        assert(chats[n].chat_id@ == messages@[k - above.len()].chat_id@);
                    },
                    RoomRead::Locked => {},
                }
            }
        }
    }
}

/// What was read from all rooms, of each listed room once: it counts as available or as locked,
/// and every message is one of a listed room.
pub fn read_output(chats: Vec<ChatSummary>, reads: Vec<RoomRead>) -> (r: ReadOutput)
    requires
        reads@.len() == chats@.len(),
        forall|i: int| 0 <= i < reads@.len() ==> is_read_of(chats@[i], #[trigger] reads@[i]),
    ensures
        r.chats == chats,
        r.messages@ == messages_of(reads@),
        r.available == open_rooms(reads@),
        r.locked == reads@.len() - open_rooms(reads@),
        r.available + r.locked == r.chats@.len(),
        forall|k: int|
            0 <= k < r.messages@.len() ==> is_listed(
                r.chats@,
                (#[trigger] r.messages@[k]).chat_id@,
            ),
{
    proof {
        lemma_messages_listed(chats@, reads@);
    }
    let mut messages: Vec<RawMessage> = Vec::new();
    let mut available: usize = 0;
    let mut locked: usize = 0;
    assert(reads@.take(0) =~= Seq::<RoomRead>::empty());
    for i in 0..reads.len()
        invariant
            messages@ == messages_of(reads@.take(i as int)),
            available == open_rooms(reads@.take(i as int)),
            available + locked == i,
    {
        assert(reads@.take(i + 1).drop_last() =~= reads@.take(i as int));
        match &reads[i] {
            RoomRead::Messages(room) => {
                let ghost front = messages@;
                for k in 0..room.len()
                    invariant
                        messages@ =~= front + room@.take(k as int),
                {
                    messages.push(room[k].clone());
                }
                assert(room@.take(room@.len() as int) =~= room@);
                available = available + 1;
            },
            RoomRead::Locked => {
                locked = locked + 1;
            },
        }
    }
    assert(reads@.take(reads@.len() as int) =~= reads@);
    ReadOutput { chats, messages, available, locked }
}

/// The first page of a database whose key is not known yet.
#[derive(Debug)]
pub struct Probe {
    pub file: usize,
    pub first: Vec<u8>,
}

/// The files among the first `n` probes that a key opens, going by their first pages.
pub open spec fn opened_by(probes: Seq<Probe>, key: Seq<u8>, n: nat) -> Seq<usize>
    decreases n,
{
    if n == 0 {
        Seq::empty()
    } else {
        let front = opened_by(probes, key, (n - 1) as nat);
        let page = probes[n - 1].first@;
        if is_first_block(aes256_decrypted(key, page.subrange(16, 32)), page) {
            front.push(probes[n - 1].file)
        } else {
            front
        }
    }
}

/// The search for keys: the databases still closed, and what stands for the candidates tried.
/// A candidate itself is never kept.
pub struct KeySearch {
    probes: Vec<Probe>,
    tried: StringHashSet,
}

impl KeySearch {
    /// The databases still closed.
    pub closed spec fn closed_files(&self) -> Seq<Probe> {
        self.probes@
    }

    /// The fingerprints of the candidates tried, in hexadecimal.
    pub closed spec fn fingerprints(&self) -> Set<Seq<char>> {
        self.tried@
    }

    /// Every probe holds a whole page.
    pub open spec fn wf(&self) -> bool {
        forall|i: int|
            0 <= i < self.closed_files().len() ==> (#[trigger] self.closed_files()[i]).first@.len()
                == PAGE_SIZE
    }

    /// A search over the databases that could be read a page deep.
    pub fn new(probes: Vec<Probe>) -> (r: Self)
        ensures
            r.wf(),
            r.closed_files() == probes@.filter(|probe: Probe| probe.first@.len() == PAGE_SIZE),
            r.fingerprints() == Set::<Seq<char>>::empty(),
    {
        let ghost fits = |probe: Probe| probe.first@.len() == PAGE_SIZE;
        let ghost all = probes@;
        let ghost mut seen: int = 0;
        let mut whole: Vec<Probe> = probes;
        let mut kept: usize = 0;
        assert(all.take(0) =~= Seq::<Probe>::empty());
        proof {
            reveal(Seq::filter);
        }
        assert(whole@ =~= all.take(0).filter(fits) + all.skip(0));
        while kept < whole.len()
            invariant
                fits == (|probe: Probe| probe.first@.len() == PAGE_SIZE),
                0 <= seen <= all.len(),
                kept == all.take(seen).filter(fits).len(),
                whole@ == all.take(seen).filter(fits) + all.skip(seen),
                forall|k: int|
                    0 <= k < kept ==> (#[trigger] whole@[k]).first@.len() == PAGE_SIZE,
            decreases whole.len() - kept,
        {
            let ghost before = whole@;
            proof {
                reveal(Seq::filter);
                assert(all.take(seen + 1).drop_last() =~= all.take(seen));
                assert(before[kept as int] == all[seen]);
            }
            if whole[kept].first.len() == PAGE_SIZE {
                kept = kept + 1;
            } else {
                whole.remove(kept);
            }
            proof {
                seen = seen + 1;
                assert(whole@ =~= all.take(seen).filter(fits) + all.skip(seen));
            }
        }
        assert(seen == all.len());
        assert(all.take(seen) =~= all);
        assert(whole@ =~= all.filter(fits));
        KeySearch { probes: whole, tried: StringHashSet::new() }
    }

    /// Whether every database was opened.
    pub fn is_done(&self) -> (r: bool)
        ensures
            r == (self.closed_files().len() == 0),
    {
        self.probes.len() == 0
    }

    /// Takes in a candidate: the files that it may open, none where the candidate was tried
    /// already.
    pub fn offer(&mut self, key: &[u8]) -> (r: Vec<usize>)
        requires
            old(self).wf(),
            key@.len() == KEY_SIZE,
        ensures
            final(self).wf(),
            final(self).closed_files() == old(self).closed_files(),
            final(self).fingerprints() == old(self).fingerprints().insert(hex(sha256(key@))),
            r@ == if old(self).fingerprints().contains(hex(sha256(key@))) {
                Seq::empty()
            } else {
                opened_by(old(self).closed_files(), key@, old(self).closed_files().len())
            },
    {
        let fingerprint: String = hex_text(sha256_digest(key).as_slice());
        let mut r: Vec<usize> = Vec::new();
        if self.tried.contains(fingerprint.as_str()) {
            assert(self.tried@.insert(fingerprint@) =~= self.tried@);
            return r;
        }
        self.tried.insert(fingerprint);
        assert(self.closed_files() == old(self).closed_files());
        for i in 0..self.probes.len()
            invariant
                self.wf(),
                key@.len() == KEY_SIZE,
                r@ == opened_by(self.probes@, key@, i as nat),
        {
            assert(self.closed_files()[i as int].first@.len() == PAGE_SIZE);
            if key_matches(self.probes[i].first.as_slice(), key) {
                r.push(self.probes[i].file);
            }
        }
        r
    }

    /// Takes in that a file was opened: it is searched for no more.
    pub fn settle(&mut self, file: usize)
        requires
            old(self).wf(),
        ensures
            final(self).wf(),
            final(self).fingerprints() == old(self).fingerprints(),
            final(self).closed_files() == old(self).closed_files().filter(
                |probe: Probe| probe.file != file,
            ),
    {
        let ghost stays = |probe: Probe| probe.file != file;
        let ghost all = self.probes@;
        let ghost mut seen: int = 0;
        let mut kept: usize = 0;
        assert(all.take(0) =~= Seq::<Probe>::empty());
        proof {
            reveal(Seq::filter);
        }
        assert(self.probes@ =~= all.take(0).filter(stays) + all.skip(0));
        while kept < self.probes.len()
            invariant
                self.wf(),
                self.tried == old(self).tried,
                stays == (|probe: Probe| probe.file != file),
                0 <= seen <= all.len(),
                kept == all.take(seen).filter(stays).len(),
                self.probes@ == all.take(seen).filter(stays) + all.skip(seen),
            decreases self.probes.len() - kept,
        {
            let ghost before = self.probes@;
            proof {
                assert forall|k: int| 0 <= k < before.len() implies (
                #[trigger] before[k]).first@.len() == PAGE_SIZE by {
                    assert(self.closed_files()[k] == before[k]);
                }
                reveal(Seq::filter);
                assert(all.take(seen + 1).drop_last() =~= all.take(seen));
                assert(before[kept as int] == all[seen]);
            }
            if self.probes[kept].file != file {
                kept = kept + 1;
            } else {
                self.probes.remove(kept);
            }
            proof {
                seen = seen + 1;
                assert(self.probes@ =~= all.take(seen).filter(stays) + all.skip(seen));
                assert forall|k: int| 0 <= k < self.closed_files().len() implies (
                #[trigger] self.closed_files()[k]).first@.len() == PAGE_SIZE by {
                    if before.len() > self.probes@.len() && k >= kept {
                        assert(self.closed_files()[k] == before[k + 1]);
                    } else {
                        assert(self.closed_files()[k] == before[k]);
                    }
                }
            }
        }
        assert(seen == all.len());
        assert(all.take(seen) =~= all);
        assert(self.probes@ =~= all.filter(stays));
    }
}

/// Whether the search goes on: it has time left and something to find.
pub fn search_goes_on(search: &KeySearch, millis_spent: u64) -> (r: bool)
    ensures
        r == (millis_spent < SCAN_LIMIT_MILLIS && search.closed_files().len() > 0),
{
    millis_spent < SCAN_LIMIT_MILLIS && !search.is_done()
}

/// Where the region behind this one starts. The search only moves forward: it ends where an
/// address would not grow.
pub fn next_region(base: usize, length: usize, address: usize) -> (r: Option<usize>)
    ensures
        r is Some <==> base + length <= usize::MAX && base + length > address,
        r is Some ==> r->0 == base + length && r->0 > address,
{
    match base.checked_add(length) {
        Some(next) => if next > address {
            Some(next)
        } else {
            None
        },
        None => None,
    }
}

/// Whether keys found earlier still serve: they belong to one run of the program and one profile.
pub fn keys_still_serve(cached_process: u32, process: u32, same_profile: bool) -> (r: bool)
    ensures
        r == (cached_process == process && same_profile),
{
    cached_process == process && same_profile
}

/// Texts are the same but for case exactly where each two characters are equal or are the capital
/// and the small form of one ASCII letter.
pub proof fn lemma_case_of_letters_only(a: Seq<char>, b: Seq<char>)
    ensures
        same_but_case(a, b) <==> a.len() == b.len() && forall|i: int|
            0 <= i < a.len() ==> {
                ||| (#[trigger] a[i]) == b[i]
                ||| 65 <= a[i] as u32 <= 90 && b[i] as u32 == a[i] as u32 + 32
                ||| 65 <= b[i] as u32 <= 90 && a[i] as u32 == b[i] as u32 + 32
            },
        same_but_case(a, a),
        same_but_case(a, b) ==> same_but_case(b, a),
{
    if same_but_case(a, b) {
        assert forall|i: int| 0 <= i < a.len() implies {
            ||| (#[trigger] a[i]) == b[i]
            ||| 65 <= a[i] as u32 <= 90 && b[i] as u32 == a[i] as u32 + 32
            ||| 65 <= b[i] as u32 <= 90 && a[i] as u32 == b[i] as u32 + 32
        } by {
            assert(ascii_lower(a[i]) == ascii_lower(b[i]));
        }
        assert forall|i: int| 0 <= i < b.len() implies ascii_lower(#[trigger] b[i]) == ascii_lower(
            a[i],
        ) by {
            assert(ascii_lower(a[i]) == ascii_lower(b[i]));
        }
    }
}

/// The files of a name are all those that are called so but for case, first ones first.
pub proof fn lemma_files_of_a_name(files: Seq<DatabaseFile>, name: Seq<char>, n: nat)
    requires
        n <= files.len(),
    ensures
        forall|p: int|
            #[trigger]
            files_named(files, name, n).contains(p) <==> 0 <= p < n && same_but_case(
                files[p].name@,
                name,
            ),
        forall|a: int, b: int|
            0 <= a < b < files_named(files, name, n).len() ==> (#[trigger] files_named(
                files,
                name,
                n,
            )[a]) < (#[trigger] files_named(files, name, n)[b]),
    decreases n,
{
    let all = files_named(files, name, n);
    if n > 0 {
        let front = files_named(files, name, (n - 1) as nat);
        lemma_files_of_a_name(files, name, (n - 1) as nat);
        assert forall|p: int|
            #[trigger]
            all.contains(p) <==> 0 <= p < n && same_but_case(files[p].name@, name) by {
            if front.contains(p) {
                let k = front.index_of(p);
                assert(all[k] == p);
            }
            if p == n - 1 && same_but_case(files[p].name@, name) {
                assert(all[all.len() - 1] == p);
            }
            if all.contains(p) {
                let k = all.index_of(p);
                if k < front.len() {
                    assert(front[k] == p);
                    assert(front.contains(p));
                }
            }
        }
        assert forall|a: int, b: int| 0 <= a < b < all.len() implies (#[trigger] all[a]) < (
        #[trigger] all[b]) by {
            if b < front.len() {
                assert(front[a] < front[b]);
            } else {
                assert(front.contains(front[a]));
            }
        }
    }
}

/// The contact lists are all the files called so but for case whose keys are known, first ones
/// first.
pub proof fn lemma_contact_lists_with_keys(files: Seq<DatabaseFile>, n: nat)
    requires
        n <= files.len(),
    ensures
        forall|p: int|
            #[trigger]
            contacts_at(files, n).contains(p) <==> 0 <= p < n && files[p].has_key && same_but_case(files[p].name@, "TalkUserDB.edb"@),
        forall|a: int, b: int|
            0 <= a < b < contacts_at(files, n).len() ==> (#[trigger] contacts_at(files, n)[a]) < (
            #[trigger] contacts_at(files, n)[b]),
    decreases n,
{
    let all = contacts_at(files, n);
    if n > 0 {
        let front = contacts_at(files, (n - 1) as nat);
        lemma_contact_lists_with_keys(files, (n - 1) as nat);
        assert forall|p: int|
            #[trigger]
            all.contains(p) <==> 0 <= p < n && files[p].has_key && same_but_case(
                files[p].name@,
                "TalkUserDB.edb"@,
            ) by {
            if front.contains(p) {
                let k = front.index_of(p);
                assert(all[k] == p);
            }
            if p == n - 1 && files[p].has_key && same_but_case(
                files[p].name@,
                "TalkUserDB.edb"@,
            ) {
                assert(all[all.len() - 1] == p);
            }
            if all.contains(p) {
                let k = all.index_of(p);
                if k < front.len() {
                    assert(front[k] == p);
                    assert(front.contains(p));
                }
            }
        }
        assert forall|a: int, b: int| 0 <= a < b < all.len() implies (#[trigger] all[a]) < (
        #[trigger] all[b]) by {
            if b < front.len() {
                assert(front[a] < front[b]);
            } else {
                assert(front.contains(front[a]));
            }
        }
    }
}

/// The file of a room holds the room's id between a fixed start and a fixed end, so that no two
/// rooms share a file name.
pub proof fn lemma_room_file_holds_the_id(a: Seq<char>, b: Seq<char>)
    ensures
        room_file(a).len() == 9 + a.len() + 4,
        room_file(a).take(9) == "chatLogs_"@,
        room_file(a).subrange(9, (9 + a.len()) as int) == a,
        room_file(a).skip((9 + a.len()) as int) == ".edb"@,
        room_file(a) == room_file(b) ==> a == b,
{
    reveal_strlit("chatLogs_");
    reveal_strlit(".edb");
    assert(room_file(a).take(9) =~= "chatLogs_"@);
    assert(room_file(a).subrange(9, (9 + a.len()) as int) =~= a);
    assert(room_file(a).skip((9 + a.len()) as int) =~= ".edb"@);
    assert(room_file(b).subrange(9, (9 + b.len()) as int) =~= b);
}

/// The messages of the rooms stand one room behind the other: each open room gives all of its
/// messages in their order, at the place where the rooms before it end, and a locked room none.
pub proof fn lemma_messages_room_by_room(reads: Seq<RoomRead>, i: int)
    requires
        0 <= i < reads.len(),
    ensures
        messages_of(reads) == messages_of(reads.take(i)) + (match reads[i] {
            RoomRead::Messages(messages) => messages@,
            RoomRead::Locked => Seq::empty(),
        }) + messages_of(reads.skip(i + 1)),
        messages_of(Seq::<RoomRead>::empty()).len() == 0,
    decreases reads.len(),
{
    let front = reads.drop_last();
    let own = match reads[i] {
        RoomRead::Messages(messages) => messages@,
        RoomRead::Locked => Seq::empty(),
    };
    if i == reads.len() - 1 {
        assert(reads.take(i) =~= front);
        assert(reads.skip(i + 1) =~= Seq::<RoomRead>::empty());
        assert(messages_of(reads) =~= messages_of(reads.take(i)) + own + messages_of(
            reads.skip(i + 1),
        ));
    } else {
        lemma_messages_room_by_room(front, i);
        let rest = reads.skip(i + 1);
        assert(front.take(i) =~= reads.take(i));
        assert(rest.drop_last() =~= front.skip(i + 1));
        assert(rest.last() == reads.last());
        assert(messages_of(reads) =~= messages_of(reads.take(i)) + own + messages_of(rest));
    }
}

/// The open rooms are counted: those of which messages were read, be it none.
pub proof fn lemma_open_rooms_are_counted(reads: Seq<RoomRead>)
    ensures
        open_rooms(reads) == reads.filter(|read: RoomRead| read is Messages).len(),
        reads.len() - open_rooms(reads) == reads.filter(|read: RoomRead| read is Locked).len(),
    decreases reads.len(),
{
    reveal(Seq::filter);
    if reads.len() > 0 {
        lemma_open_rooms_are_counted(reads.drop_last());
    }
}

/// A key opens exactly the closed files whose first page reads as a database header under it.
pub proof fn lemma_key_opens_what_it_decrypts(probes: Seq<Probe>, key: Seq<u8>, n: nat)
    requires
        n <= probes.len(),
    ensures
        forall|f: usize| #[trigger]
            opened_by(probes, key, n).contains(f) <==> exists|i: int|
                0 <= i < n && (#[trigger] probes[i]).file == f && is_first_block(
                    aes256_decrypted(key, probes[i].first@.subrange(16, 32)),
                    probes[i].first@,
                ),
    decreases n,
{
    let all = opened_by(probes, key, n);
    if n > 0 {
        let front = opened_by(probes, key, (n - 1) as nat);
        lemma_key_opens_what_it_decrypts(probes, key, (n - 1) as nat);
        let last = probes[n - 1];
        assert forall|f: usize| #[trigger] all.contains(f) <==> exists|i: int|
            0 <= i < n && (#[trigger] probes[i]).file == f && is_first_block(
                aes256_decrypted(key, probes[i].first@.subrange(16, 32)),
                probes[i].first@,
            ) by {
            if all.contains(f) {
                let k = all.index_of(f);
                if k < front.len() {
                    assert(front[k] == f);
                    assert(front.contains(f));
                } else {
                    assert(last.file == f);
                }
            }
            if exists|i: int|
                0 <= i < n && (#[trigger] probes[i]).file == f && is_first_block(
                    aes256_decrypted(key, probes[i].first@.subrange(16, 32)),
                    probes[i].first@,
                ) {
                let i = choose|i: int|
                    0 <= i < n && (#[trigger] probes[i]).file == f && is_first_block(
                        aes256_decrypted(key, probes[i].first@.subrange(16, 32)),
                        probes[i].first@,
                    );
                if i < n - 1 {
                    assert(front.contains(f));
                    let k = front.index_of(f);
                    assert(all[k] == f);
                } else {
                    assert(all[all.len() - 1] == f);
                }
            }
        }
    }
}

/// A first page says that a page has 4096 bytes, that it keeps as many bytes at its end as were
/// taken for the vector, and the payload fractions 64, 32 and 32.
pub proof fn lemma_first_block_is_a_header(block: Seq<u8>, page: Seq<u8>) -> (reserved: int)
    requires
        is_first_block(block, page),
    ensures
        16 <= reserved <= 96 && reserved % 16 == 0,
        (block[0] ^ page[4096 - reserved]) * 256 + (block[1] ^ page[4096 - reserved + 1]) == 4096,
        1 <= block[2] ^ page[4096 - reserved + 2] <= 2,
        1 <= block[3] ^ page[4096 - reserved + 3] <= 2,
        block[4] ^ page[4096 - reserved + 4] == reserved,
        block[5] ^ page[4096 - reserved + 5] == 64,
        block[6] ^ page[4096 - reserved + 6] == 32,
        block[7] ^ page[4096 - reserved + 7] == 32,
{
    let reserved = choose|reserved: int|
        is_reserve(reserved) && #[trigger] header_fits(block, page, reserved);
    reserved
}

/// The parts of a region lie within it, are no longer than a step and a record's span, and each
/// reaches back a record's span into the one before.
pub proof fn lemma_parts_stay_in_the_region(length: nat, index: nat)
    requires
        index * READ_STEP < length,
    ensures
        part_of(length, index).0 >= 0,
        0 < part_of(length, index).1 <= 1_048_576 + 89,
        part_of(length, index).0 + part_of(length, index).1 <= length,
        index == 0 ==> part_of(length, index).0 == 0,
        index > 0 ==> part_of(length, index).0 + 89 == index * 1_048_576,
{
    if index > 0 {
        assert(index * READ_STEP >= 1_048_576) by (nonlinear_arith)
            requires
                index > 0,
                READ_STEP == 1_048_576,
        ;
    } else {
        assert(index * READ_STEP == 0) by (nonlinear_arith)
            requires
                index == 0,
        ;
    }
}

/// Committed private memory is read where its protection lets it be read: pages without access or
/// for execution only are not, and guarded pages never.
pub proof fn lemma_which_memory_is_read(state: u32, kind: u32, protection: u32)
    ensures
        is_readable(state, kind, protection) ==> state == 0x1000 && kind == 0x20000,
        protection < 0x100 ==> (is_readable(0x1000, 0x20000, protection) <==> protection == 0x02
            || protection == 0x04 || protection == 0x08 || protection == 0x20 || protection == 0x40
            || protection == 0x80),
        0x100 <= protection < 0x200 ==> !is_readable(state, kind, protection),
{
    assert(protection < 0x100 ==> protection & 0xff == protection && protection & 0x100 == 0)
        by (bit_vector);
    assert(0x100 <= protection < 0x200 ==> protection & 0x100 != 0) by (bit_vector);
}

/// The zero bytes are counted.
pub proof fn lemma_zeros_are_counted(bytes: Seq<u8>)
    ensures
        zeros(bytes) == bytes.filter(|byte: u8| byte == 0).len(),
    decreases bytes.len(),
{
    reveal(Seq::filter);
    if bytes.len() > 0 {
        lemma_zeros_are_counted(bytes.drop_last());
    }
}

/// A key may start at `start` behind the mark at `i`: 1, 16, 49 or 56 bytes behind it, with at most
/// two zero bytes among its thirty-two.
pub open spec fn may_start_behind(buffer: Seq<u8>, i: int, start: int) -> bool {
    &&& start == i + 1 || start == i + 16 || start == i + 49 || start == i + 56
    &&& zeros(buffer.subrange(start, start + 32)) <= 2
}

proof fn lemma_candidates_behind_a_mark(buffer: Seq<u8>, i: int, start: int)
    ensures
        candidates_at(buffer, i, 4).contains(start) <==> may_start_behind(buffer, i, start),
{
    reveal_with_fuel(candidates_at, 5);
    let none = candidates_at(buffer, i, 0);
    let one = candidates_at(buffer, i, 1);
    let two = candidates_at(buffer, i, 2);
    let three = candidates_at(buffer, i, 3);
    lemma_contains_pushed(none, i + 1, start);
    lemma_contains_pushed(one, i + 16, start);
    lemma_contains_pushed(two, i + 49, start);
    lemma_contains_pushed(three, i + 56, start);
}

proof fn lemma_contains_pushed(list: Seq<int>, last: int, x: int)
    ensures
        list.push(last).contains(x) <==> list.contains(x) || x == last,
{
    if list.contains(x) {
        let k = list.index_of(x);
        assert(list.push(last)[k] == x);
    }
    if x == last {
        assert(list.push(last)[list.len() as int] == x);
    }
    if list.push(last).contains(x) {
        let k = list.push(last).index_of(x);
        if k < list.len() {
            assert(list[k] == x);
        }
    }
}

/// A key is looked for exactly behind the marks: a byte 0x88 behind a byte below eight, with room
/// for a record behind it.
pub proof fn lemma_keys_are_looked_for_behind_marks(buffer: Seq<u8>, end: nat, start: int)
    ensures
        candidates_before(buffer, end).contains(start) <==> exists|i: int|
            {
                &&& 1 <= i < end
                &&& i + 88 <= buffer.len()
                &&& buffer[i] == 0x88
                &&& buffer[i - 1] < 8
                &&& #[trigger] may_start_behind(buffer, i, start)
            },
    decreases end,
{
    if end > 0 {
        let front = candidates_before(buffer, (end - 1) as nat);
        let here = candidates_at(buffer, end - 1, 4);
        lemma_keys_are_looked_for_behind_marks(buffer, (end - 1) as nat, start);
        lemma_candidates_behind_a_mark(buffer, end - 1, start);
        let all = candidates_before(buffer, end);
        if all.contains(start) {
            let k = all.index_of(start);
            if k < front.len() {
                assert(front[k] == start);
                assert(front.contains(start));
            } else {
                assert(here[k - front.len()] == start);
                assert(here.contains(start));
                assert(may_start_behind(buffer, end - 1, start));
            }
        }
        if exists|i: int|
            {
                &&& 1 <= i < end
                &&& i + 88 <= buffer.len()
                &&& buffer[i] == 0x88
                &&& buffer[i - 1] < 8
                &&& #[trigger] may_start_behind(buffer, i, start)
            } {
            let i = choose|i: int|
                {
                    &&& 1 <= i < end
                    &&& i + 88 <= buffer.len()
                    &&& buffer[i] == 0x88
                    &&& buffer[i - 1] < 8
                    &&& #[trigger] may_start_behind(buffer, i, start)
                };
            if i < end - 1 {
                assert(front.contains(start));
                let k = front.index_of(start);
                assert(all[k] == start);
            } else {
                let k = here.index_of(start);
                assert(all[front.len() + k] == start);
            }
        }
    }
}

/// No account is guessed: a profile is taken without a selection only where it is the only one, a
/// selected one is taken where it is there, and one running program is needed.
pub proof fn lemma_no_account_is_guessed(
    profiles: usize,
    place: usize,
    unset: Result<usize, SourceError>,
    selected: Result<usize, SourceError>,
    found: usize,
    process: Result<(), SourceError>,
)
    requires
        call_ensures(choose_profile, (profiles, ProfileSelection::Unset), unset),
        call_ensures(choose_profile, (profiles, ProfileSelection::Profile(place)), selected),
        call_ensures(check_process_count, (found,), process),
    ensures
        unset is Ok <==> profiles == 1,
        unset is Ok ==> unset->Ok_0 < profiles,
        selected is Ok <==> place < profiles,
        selected is Ok ==> selected->Ok_0 == place,
        process is Ok <==> found == 1,
{
}

/// The running program is searched again after ten seconds, for less than twenty, and keys serve
/// only the program and the profile that they were found for.
pub proof fn lemma_when_keys_are_searched(
    millis: u64,
    never: bool,
    due: bool,
    cached: u32,
    process: u32,
    same_profile: bool,
    serve: bool,
)
    requires
        call_ensures(scan_due, (None::<u64>,), never),
        call_ensures(scan_due, (Some(millis),), due),
        call_ensures(keys_still_serve, (cached, process, same_profile), serve),
    ensures
        never,
        due <==> millis >= 10_000,
        serve <==> cached == process && same_profile,
{
}

/// The chat list is the first file of its name, and is read only with its key.
pub proof fn lemma_chat_list_is_the_first_of_its_name(
    files: Vec<DatabaseFile>,
    r: Result<usize, SourceError>,
)
    requires
        call_ensures(locate_chat_list, (&files,), r),
    ensures
        r is Ok ==> r->Ok_0 < files@.len() && files@[r->Ok_0 as int].has_key && same_but_case(
            files@[r->Ok_0 as int].name@,
            "chatListInfo.edb"@,
        ) && forall|p: int|
            0 <= p < r->Ok_0 ==> !same_but_case((#[trigger] files@[p]).name@, "chatListInfo.edb"@),
        (forall|p: int|
            0 <= p < files@.len() ==> !same_but_case(
                (#[trigger] files@[p]).name@,
                "chatListInfo.edb"@,
            )) ==> r is Err,
{
    let name = "chatListInfo.edb"@;
    let found = files_named(files@, name, files@.len());
    lemma_files_of_a_name(files@, name, files@.len());
    if found.len() > 0 {
        assert(found.contains(found[0]));
        assert(same_but_case(files@[found[0]].name@, name));
        assert forall|p: int| 0 <= p < found[0] implies !same_but_case(
            (#[trigger] files@[p]).name@,
            name,
        ) by {
            if same_but_case(files@[p].name@, name) {
                assert(found.contains(p));
                let k = found.index_of(p);
                if k > 0 {
                    assert(found[0] < found[k]);
                }
            }
        }
    }
}

/// A room is read from the one file that is called after its id, where its key is known; a second
/// such file spoils the read.
pub proof fn lemma_room_is_read_from_its_own_file(
    files: Vec<DatabaseFile>,
    room: ChatSummary,
    r: Result<Option<usize>, SourceError>,
    p: int,
    q: int,
)
    requires
        call_ensures(room_source, (&files, &room), r),
    ensures
        r is Ok && r->Ok_0 is Some ==> {
            let at = r->Ok_0->0 as int;
            &&& at < files@.len()
            &&& files@[at].has_key
            &&& same_but_case(files@[at].name@, "chatLogs_"@ + room.chat_id@ + ".edb"@)
        },
        0 <= p < q < files@.len() && same_but_case(
            files@[p].name@,
            "chatLogs_"@ + room.chat_id@ + ".edb"@,
        ) && same_but_case(files@[q].name@, "chatLogs_"@ + room.chat_id@ + ".edb"@) ==> r is Err,
{
    let name = room_file(room.chat_id@);
    let found = room_files(files@, room);
    lemma_files_of_a_name(files@, name, files@.len());
    if found.len() > 0 {
        assert(found.contains(found[0]));
    }
    if 0 <= p < q < files@.len() && same_but_case(files@[p].name@, name) && same_but_case(
        files@[q].name@,
        name,
    ) {
        assert(found.contains(p));
        assert(found.contains(q));
        assert(found.index_of(p) != found.index_of(q));
    }
}

/// The search moves forward through memory: the next region starts where this one ends.
pub proof fn lemma_search_moves_forward(
    base: usize,
    length: usize,
    address: usize,
    r: Option<usize>,
)
    requires
        call_ensures(next_region, (base, length, address), r),
    ensures
        r is Some ==> r->0 == base + length && r->0 > address,
        base <= address < base + length <= usize::MAX ==> r is Some,
{
}

} // verus!
