//! The line being typed: its characters, the cursor, and the part of it that is visible.
use crate::text::{char_is_control, char_is_white, control_free, is_control, is_white, string_of};
use crate::width::{
    char_columns, char_width, chars_width, columns, count_fitting, display_front, display_prefix,
    fit_count, is_printable_ascii, lemma_columns_concat, lemma_fit_count, text_columns,
    };
use vstd::prelude::*;

verus! {

pub const REPLY_PROMPT: &'static str = "reply> ";

/// A line of text with a cursor between its characters.
#[verifier::ext_equal]
pub struct DraftView {
    pub text: Seq<char>,
    pub cursor: int,
}

impl DraftView {
    /// The cursor stands in the line, and the line holds no control character.
    pub open spec fn is_valid(self) -> bool {
        0 <= self.cursor <= self.text.len() && control_free(self.text)
    }

    /// The characters before the cursor.
    pub open spec fn before(self) -> Seq<char> {
        self.text.take(self.cursor)
    }

    /// The characters behind the cursor.
    pub open spec fn after(self) -> Seq<char> {
        self.text.skip(self.cursor)
    }

    /// The line in two parts, with the cursor between them.
    pub open spec fn around(before: Seq<char>, after: Seq<char>) -> DraftView {
        DraftView { text: before + after, cursor: before.len() as int }
    }

    /// A character typed at the cursor; a control character does nothing.
    pub open spec fn typed(self, c: char) -> DraftView {
        if is_control(c) {
            self
        } else {
            Self::around(self.before().push(c), self.after())
        }
    }

    /// Text put in at the cursor.
    pub open spec fn pasted(self, text: Seq<char>) -> DraftView {
        Self::around(self.before() + pasteable(text), self.after())
    }

    /// The character before the cursor removed, if there is one.
    pub open spec fn backspaced(self) -> DraftView {
        if self.cursor > 0 {
            Self::around(self.before().drop_last(), self.after())
        } else {
            self
        }
    }

    /// The character behind the cursor removed, if there is one.
    pub open spec fn deleted(self) -> DraftView {
        if self.cursor < self.text.len() {
            Self::around(self.before(), self.after().drop_first())
        } else {
            self
        }
    }

    /// The cursor moved, but not out of the line.
    pub open spec fn moved_to(self, cursor: int) -> DraftView {
        DraftView {
            text: self.text,
            cursor: if cursor < 0 {
                0
            } else if cursor > self.text.len() {
                self.text.len() as int
            } else {
                cursor
            },
        }
    }

    /// The word before the cursor removed, with the white space between it and the cursor.
    pub open spec fn without_word(self) -> DraftView {
        Self::around(drop_word(drop_white(self.before())), self.after())
    }

    /// Everything before the cursor removed.
    pub open spec fn without_head(self) -> DraftView {
        Self::around(Seq::empty(), self.after())
    }

    /// Everything behind the cursor removed.
    pub open spec fn without_tail(self) -> DraftView {
        Self::around(self.before(), Seq::empty())
    }
}

/// What a paste puts in: line breaks become spaces, other control characters are left out.
pub open spec fn pasteable(text: Seq<char>) -> Seq<char>
    decreases text.len(),
{
    if text.len() == 0 {
        Seq::empty()
    } else {
        let front = pasteable(text.drop_last());
        let c = text.last();
        if c == '\r' || c == '\n' {
            front.push(' ')
        } else if is_control(c) {
            front
        } else {
            front.push(c)
        }
    }
}

/// `s` without the white space at its end.
pub open spec fn drop_white(s: Seq<char>) -> Seq<char>
    decreases s.len(),
{
    if s.len() > 0 && is_white(s.last()) {
        drop_white(s.drop_last())
    } else {
        s
    }
}

/// `s` without the word at its end.
pub open spec fn drop_word(s: Seq<char>) -> Seq<char>
    decreases s.len(),
{
    if s.len() > 0 && !is_white(s.last()) {
        drop_word(s.drop_last())
    } else {
        s
    }
}

/// How many characters at the end of `s` fit in `width` columns together.
pub open spec fn fit_count_back(s: Seq<char>, width: nat) -> nat
    decreases s.len(),
{
    if s.len() == 0 || char_columns(s.last()) > width {
        0
    } else {
        1 + fit_count_back(s.drop_last(), (width - char_columns(s.last())) as nat)
    }
}

/// The columns of a terminal that text may fill: all but the last, and at least one.
pub open spec fn usable_columns(terminal_width: u16) -> nat {
    if terminal_width >= 2 {
        (terminal_width - 1) as nat
    } else {
        1
    }
}

/// The columns of a terminal that text may fill: all but the last, and at least one.
pub fn usable_width(terminal_width: u16) -> (r: usize)
    ensures
        r == usable_columns(terminal_width),
        1 <= r <= 65534,
{
    if terminal_width >= 2 {
        terminal_width as usize - 1
    } else {
        1
    }
}

/// Where the visible part of the line starts when `available` columns are left for it: as far
/// back from the cursor as fits.
pub open spec fn window_start(draft: DraftView, available: nat) -> int {
    draft.cursor - fit_count_back(draft.before(), available)
}

/// The visible part of the line.
pub open spec fn window(draft: DraftView, available: nat) -> Seq<char> {
    display_front(draft.text.skip(window_start(draft, available)), available)
}

/// The input row: the prompt and the visible part of the line.
pub open spec fn input_row(draft: DraftView, width: nat) -> Seq<char> {
    if REPLY_PROMPT@.len() >= width {
        display_front(REPLY_PROMPT@, width)
    } else {
        REPLY_PROMPT@ + window(draft, (width - REPLY_PROMPT@.len()) as nat)
    }
}

/// The column of the cursor in the input row.
pub open spec fn input_column(draft: DraftView, width: nat) -> nat {
    if REPLY_PROMPT@.len() >= width {
        width
    } else {
        let available = (width - REPLY_PROMPT@.len()) as nat;
        REPLY_PROMPT@.len() + columns(
            draft.text.subrange(window_start(draft, available), draft.cursor),
        )
    }
}

/// The input row of a reply surface.
#[derive(Debug, PartialEq, Eq)]
pub struct ReplyInputFrame {
    pub input: String,
    pub cursor_column: u16,
}

impl Clone for ReplyInputFrame {
    fn clone(&self) -> (r: Self)
        ensures
            r == *self,
    {
        ReplyInputFrame { input: self.input.clone(), cursor_column: self.cursor_column }
    }
}

/// The line being typed.
#[derive(Debug)]
pub struct Draft {
    chars: Vec<char>,
    cursor: usize,
}

impl View for Draft {
    type V = DraftView;

    closed spec fn view(&self) -> DraftView {
        DraftView { text: self.chars@, cursor: self.cursor as int }
    }
}

impl Clone for Draft {
    fn clone(&self) -> (r: Self)
        ensures
            r@ == self@,
    {
        let mut chars: Vec<char> = Vec::new();
        for i in 0..self.chars.len()
            invariant
                chars@ =~= self.chars@.take(i as int),
        {
            chars.push(self.chars[i]);
        }
        assert(chars@ =~= self.chars@);
        Draft { chars, cursor: self.cursor }
    }
}

impl Default for Draft {
    fn default() -> (r: Self)
        ensures
            r@.is_valid(),
            r@.text.len() == 0,
            r@.cursor == 0,
    {
        Draft { chars: Vec::new(), cursor: 0 }
    }
}

impl Draft {
    /// Types a character; a control character does nothing.
    pub fn insert(&mut self, character: char)
        requires
            old(self)@.is_valid(),
        ensures
            final(self)@.is_valid(),
            final(self)@ == old(self)@.typed(character),
    {
        if !char_is_control(character) {
            self.chars.insert(self.cursor, character);
            assert(self.cursor < self.chars.len());
            self.cursor = self.cursor + 1;
            proof {
                let d = old(self)@;
                assert(self.chars@ =~= d.before().push(character) + d.after());
            }
        }
    }

    /// Puts text in at the cursor. A paste is insertion only: line breaks become spaces.
    pub fn paste(&mut self, text: &str)
        requires
            old(self)@.is_valid(),
        ensures
            final(self)@.is_valid(),
            final(self)@ == old(self)@.pasted(text@),
    {
        let ghost d = self@;
        assert(d.before() + pasteable(text@.take(0)) =~= d.before());
        assert(d.before() + d.after() =~= d.text);
        for c in it: text.chars()
            invariant
                it.seq() == text@,
                self@.is_valid(),
                self@.text =~= d.before() + pasteable(text@.take(it.index() as int)) + d.after(),
                self@.cursor == d.before().len() + pasteable(text@.take(it.index() as int)).len(),
        {
            let ghost i = it.index() as int;
            let ghost now = self@;
            proof {
                assert(text@.take(i + 1).drop_last() =~= text@.take(i));
                assert(text@.take(i + 1).last() == c);
                assert(now.before() =~= d.before() + pasteable(text@.take(i)));
                assert(now.after() =~= d.after());
            }
            if c == '\r' || c == '\n' {
                self.insert(' ');
            } else if !char_is_control(c) {
                self.insert(c);
            }
        }
        assert(text@.take(text@.len() as int) =~= text@);
    }

    /// Removes the character before the cursor, if there is one.
    pub fn backspace(&mut self)
        requires
            old(self)@.is_valid(),
        ensures
            final(self)@.is_valid(),
            final(self)@ == old(self)@.backspaced(),
    {
        if self.cursor > 0 {
            self.cursor = self.cursor - 1;
            let _ = self.chars.remove(self.cursor);
            proof {
                let d = old(self)@;
                assert(self.chars@ =~= d.before().drop_last() + d.after());
            }
        }
    }

    /// Removes the character behind the cursor, if there is one.
    pub fn delete(&mut self)
        requires
            old(self)@.is_valid(),
        ensures
            final(self)@.is_valid(),
            final(self)@ == old(self)@.deleted(),
    {
        if self.cursor < self.chars.len() {
            let _ = self.chars.remove(self.cursor);
            proof {
                let d = old(self)@;
                assert(self.chars@ =~= d.before() + d.after().drop_first());
            }
        }
    }

    /// Moves the cursor one character back.
    pub fn left(&mut self)
        requires
            old(self)@.is_valid(),
        ensures
            final(self)@.is_valid(),
            final(self)@ == old(self)@.moved_to(old(self)@.cursor - 1),
    {
        self.cursor = self.cursor.saturating_sub(1);
    }

    /// Moves the cursor one character on.
    pub fn right(&mut self)
        requires
            old(self)@.is_valid(),
        ensures
            final(self)@.is_valid(),
            final(self)@ == old(self)@.moved_to(old(self)@.cursor + 1),
    {
        if self.cursor < self.chars.len() {
            self.cursor = self.cursor + 1;
        }
    }

    /// Moves the cursor to the start of the line.
    pub fn home(&mut self)
        requires
            old(self)@.is_valid(),
        ensures
            final(self)@.is_valid(),
            final(self)@ == old(self)@.moved_to(0),
    {
        self.cursor = 0;
    }

    /// Moves the cursor to the end of the line.
    pub fn end(&mut self)
        requires
            old(self)@.is_valid(),
        ensures
            final(self)@.is_valid(),
            final(self)@ == old(self)@.moved_to(old(self)@.text.len() as int),
    {
        self.cursor = self.chars.len();
    }

    /// Removes the word before the cursor.
    pub fn ctrl_w(&mut self)
        requires
            old(self)@.is_valid(),
        ensures
            final(self)@.is_valid(),
            final(self)@ == old(self)@.without_word(),
    {
        let ghost d = self@;
        let mut start: usize = self.cursor;
        assert(self.chars@.take(start as int) =~= d.before());
        while start > 0 && char_is_white(self.chars[start - 1])
            invariant
                self@ == d,
                self.chars@ == d.text,
                d.is_valid(),
                start <= d.cursor,
                drop_white(d.text.take(start as int)) == drop_white(d.before()),
            decreases start,
        {
            assert(d.text.take(start as int).drop_last() =~= d.text.take(start - 1));
            start = start - 1;
        }
        assert(drop_white(d.text.take(start as int)) == d.text.take(start as int));
        while start > 0 && !char_is_white(self.chars[start - 1])
            invariant
                self@ == d,
                self.chars@ == d.text,
                d.is_valid(),
                start <= d.cursor,
                drop_word(d.text.take(start as int)) == drop_word(drop_white(d.before())),
            decreases start,
        {
            assert(d.text.take(start as int).drop_last() =~= d.text.take(start - 1));
            start = start - 1;
        }
        assert(drop_word(d.text.take(start as int)) == d.text.take(start as int));
        let mut rest: Vec<char> = self.chars.split_off(self.cursor);
        self.chars.truncate(start);
        self.chars.append(&mut rest);
        self.cursor = start;
        proof {
            assert(self.chars@ =~= d.text.take(start as int) + d.after());
        }
    }

    /// Removes everything before the cursor.
    pub fn ctrl_u(&mut self)
        requires
            old(self)@.is_valid(),
        ensures
            final(self)@.is_valid(),
            final(self)@ == old(self)@.without_head(),
    {
        let rest: Vec<char> = self.chars.split_off(self.cursor);
        self.chars = rest;
        self.cursor = 0;
        assert(self.chars@ =~= Seq::<char>::empty() + old(self)@.after());
    }

    /// Removes everything behind the cursor.
    pub fn ctrl_k(&mut self)
        requires
            old(self)@.is_valid(),
        ensures
            final(self)@.is_valid(),
            final(self)@ == old(self)@.without_tail(),
    {
        self.chars.truncate(self.cursor);
        assert(self.chars@ =~= old(self)@.before() + Seq::<char>::empty());
    }

    /// Hands the line out and starts an empty one.
    pub fn take(&mut self) -> (r: String)
        requires
            old(self)@.is_valid(),
        ensures
            r@ == old(self)@.text,
            final(self)@.is_valid(),
            final(self)@.text.len() == 0,
            final(self)@.cursor == 0,
    {
        let r: String = string_of(self.chars.as_slice());
        self.chars.clear();
        self.cursor = 0;
        r
    }

    /// The line.
    pub fn text(&self) -> (r: String)
        ensures
            r@ == self@.text,
    {
        string_of(self.chars.as_slice())
    }

    /// The number of characters before the cursor.
    pub fn cursor(&self) -> (r: usize)
        ensures
            r == self@.cursor,
    {
        self.cursor
    }

    /// The input row for a terminal of the given width, and the column of the cursor in it.
    pub fn input_frame(&self, terminal_width: u16) -> (r: ReplyInputFrame)
        requires
            self@.is_valid(),
        ensures
            r.input@ == input_row(self@, usable_columns(terminal_width)),
            r.cursor_column == input_column(self@, usable_columns(terminal_width)),
    {
        let width: usize = usable_width(terminal_width);
        proof {
            reveal_strlit("reply> ");
            assert(is_printable_ascii(REPLY_PROMPT@));
        }
        let prompt_width: usize = text_columns(REPLY_PROMPT);
        if prompt_width >= width {
            return ReplyInputFrame {
                input: display_prefix(REPLY_PROMPT, width),
                cursor_column: width as u16,
            };
        }
        let available: usize = width - prompt_width;
        let ghost d = self@;
        let ghost before = d.before();
        let mut start: usize = self.cursor;
        let mut left: usize = available;
        assert(d.text.take(start as int) =~= before);
        while start > 0
            invariant_except_break
                d == self@,
                d.is_valid(),
                before == d.before(),
                start <= d.cursor,
                left <= available,
                fit_count_back(before, available as nat) == (d.cursor - start) + fit_count_back(
                    d.text.take(start as int),
                    left as nat,
                ),
            ensures
                start <= d.cursor,
                start == d.cursor - fit_count_back(before, available as nat),
            decreases start,
        {
            let candidate: usize = char_width(self.chars[start - 1]);
            assert(d.text.take(start as int).last() == d.text[start - 1]);
            if candidate > left {
                break;
            }
            assert(d.text.take(start as int).drop_last() =~= d.text.take(start - 1));
            start = start - 1;
            left = left - candidate;
        }
        let rest: &[char] = vstd::slice::slice_subrange(
            self.chars.as_slice(),
            start,
            self.chars.len(),
        );
        assert(rest@ =~= d.text.skip(start as int));
        let count: usize = count_fitting(rest, available);
        let visible: String = string_of(vstd::slice::slice_subrange(rest, 0, count));
        assert(rest@.subrange(0, count as int) =~= rest@.take(count as int));
        let lead: u128 = chars_width(
            vstd::slice::slice_subrange(self.chars.as_slice(), start, self.cursor),
        );
        proof {
            lemma_window_before(before, available as nat);
            assert(d.text.subrange(start as int, d.cursor) =~= before.skip(start as int));
        }
        let mut input: String = REPLY_PROMPT.to_owned();
        input.append(visible.as_str());
        ReplyInputFrame { input, cursor_column: prompt_width as u16 + lead as u16 }
    }
}

proof fn lemma_window_before(s: Seq<char>, width: nat)
    ensures
        fit_count_back(s, width) <= s.len(),
        columns(s.skip(s.len() - fit_count_back(s, width))) <= width,
        columns(s) <= width ==> fit_count_back(s, width) == s.len(),
    decreases s.len(),
{
    if s.len() == 0 {
        assert(s.skip(0) =~= s);
    } else if char_columns(s.last()) > width {
        assert(s.skip(s.len() as int) =~= Seq::<char>::empty());
        assert(columns(Seq::<char>::empty()) == 0);
    } else {
        let front = s.drop_last();
        let left = (width - char_columns(s.last())) as nat;
        lemma_window_before(front, left);
        let n = fit_count_back(front, left);
        assert(s.skip(s.len() - n - 1).drop_last() =~= front.skip(front.len() - n));
    }
}

/// The prompt and the visible part of the line never fill more than the row, and the cursor is
/// always within the visible part.
pub proof fn lemma_input_fits(draft: DraftView, width: nat)
    requires
        draft.is_valid(),
        REPLY_PROMPT@.len() < width,
    ensures
        ({
            let available = (width - REPLY_PROMPT@.len()) as nat;
            let start = window_start(draft, available);
            &&& columns(window(draft, available)) <= available
            &&& 0 <= start <= draft.cursor <= start + window(draft, available).len()
            &&& input_column(draft, width) <= width
        }),
{
    let available = (width - REPLY_PROMPT@.len()) as nat;
    let start = window_start(draft, available);
    let rest = draft.text.skip(start);
    lemma_window_before(draft.before(), available);
    lemma_fit_count(rest, available);
    let lead = draft.text.subrange(start, draft.cursor);
    assert(lead =~= draft.before().skip(start));
    assert(lead =~= rest.take(draft.cursor - start));
    lemma_fit_covers(rest, available, draft.cursor - start);
}

proof fn lemma_fit_covers(s: Seq<char>, width: nat, n: int)
    requires
        0 <= n <= s.len(),
        columns(s.take(n)) <= width,
    ensures
        fit_count(s, width) >= n,
    decreases s.len(),
{
    if n > 0 {
        let head = seq![s[0]];
        let rest = s.drop_first();
        assert(s.take(n) =~= head + rest.take(n - 1));
        lemma_columns_concat(head, rest.take(n - 1));
        assert(head.drop_last() =~= Seq::<char>::empty());
        assert(columns(head) == columns(Seq::<char>::empty()) + char_columns(s[0]));
        lemma_fit_covers(rest, (width - char_columns(s[0])) as nat, n - 1);
    }
}

/// A paste of text without control characters is the same as typing its characters.
pub proof fn lemma_paste_plain_text(text: Seq<char>)
    ensures
        control_free(pasteable(text)),
        control_free(text) ==> pasteable(text) == text,
    decreases text.len(),
{
    if text.len() > 0 {
        lemma_paste_plain_text(text.drop_last());
        if control_free(text) {
            assert(!is_control(text[text.len() - 1]));
            assert(text.drop_last().push(text.last()) =~= text);
        }
    } else {
        assert(pasteable(text) =~= text);
    }
}

/// Typing a character and then pressing backspace leaves the line as it was.
pub proof fn lemma_backspace_undoes_typing(draft: DraftView, c: char)
    requires
        draft.is_valid(),
        !is_control(c),
    ensures
        draft.typed(c).backspaced() == draft,
{
    let typed = draft.typed(c);
    assert(typed.before().drop_last() =~= draft.before());
    assert(typed.after() =~= draft.after());
    assert(typed.backspaced().text =~= draft.text);
}

/// Cutting the line before the cursor and behind it leaves nothing.
pub proof fn lemma_cutting_both_ways_empties(draft: DraftView)
    requires
        draft.is_valid(),
    ensures
        draft.without_head().without_tail().text.len() == 0,
        draft.without_tail().without_head().text.len() == 0,
{
}

/// The input row of a valid line holds no control character.
pub proof fn lemma_input_row_control_free(draft: DraftView, width: nat)
    requires
        draft.is_valid(),
    ensures
        control_free(input_row(draft, width)),
{
    reveal_strlit("reply> ");
    lemma_fit_count(REPLY_PROMPT@, width);
    if REPLY_PROMPT@.len() < width {
        let available = (width - REPLY_PROMPT@.len()) as nat;
        let start = window_start(draft, available);
        lemma_window_before(draft.before(), available);
        lemma_fit_count(draft.text.skip(start), available);
    }
}

/// What is left when a word is removed is the front of what was there.
pub proof fn lemma_dropped_is_front(s: Seq<char>)
    ensures
        drop_word(drop_white(s)).len() <= s.len(),
        drop_word(drop_white(s)) == s.take(drop_word(drop_white(s)).len() as int),
{
    lemma_drop_white_front(s);
    lemma_drop_word_front(drop_white(s));
    let t = drop_word(drop_white(s));
    assert(t =~= s.take(t.len() as int));
}

proof fn lemma_drop_white_front(s: Seq<char>)
    ensures
        drop_white(s).len() <= s.len(),
        drop_white(s) == s.take(drop_white(s).len() as int),
    decreases s.len(),
{
    if s.len() > 0 && is_white(s.last()) {
        lemma_drop_white_front(s.drop_last());
        let t = drop_white(s);
        assert(t =~= s.take(t.len() as int));
    } else {
        assert(s.take(s.len() as int) =~= s);
    }
}

proof fn lemma_drop_word_front(s: Seq<char>)
    ensures
        drop_word(s).len() <= s.len(),
        drop_word(s) == s.take(drop_word(s).len() as int),
    decreases s.len(),
{
    if s.len() > 0 && !is_white(s.last()) {
        lemma_drop_word_front(s.drop_last());
        let t = drop_word(s);
        assert(t =~= s.take(t.len() as int));
    } else {
        assert(s.take(s.len() as int) =~= s);
    }
}

/// A paste treats each character by itself: two texts pasted one behind the other put in the same
/// as both at once.
pub proof fn lemma_pastes_add_up(a: Seq<char>, b: Seq<char>)
    ensures
        pasteable(a + b) == pasteable(a) + pasteable(b),
    decreases b.len(),
{
    if b.len() == 0 {
        assert(a + b =~= a);
        assert(pasteable(a) + pasteable(b) =~= pasteable(a));
    } else {
        lemma_pastes_add_up(a, b.drop_last());
        assert((a + b).drop_last() =~= a + b.drop_last());
        assert(pasteable(a + b) =~= pasteable(a) + pasteable(b));
    }
}

/// A pasted character stays what it is, a line break becomes a space, and any other control
/// character puts nothing in.
pub proof fn lemma_pasted_characters(c: char)
    ensures
        !is_control(c) ==> pasteable(seq![c]) == seq![c],
        pasteable(seq!['\n']) == seq![' '],
        pasteable(seq!['\r']) == seq![' '],
        is_control(c) && c != '\n' && c != '\r' ==> pasteable(seq![c]).len() == 0,
{
    let none = Seq::<char>::empty();
    assert(seq![c].drop_last() =~= none);
    assert(seq!['\n'].drop_last() =~= none);
    assert(seq!['\r'].drop_last() =~= none);
    assert(pasteable(none) =~= none);
    assert(pasteable(seq![c]) =~= if c == '\r' || c == '\n' {
        seq![' ']
    } else if is_control(c) {
        none
    } else {
        seq![c]
    });
    assert(pasteable(seq!['\n']) =~= seq![' ']);
    assert(pasteable(seq!['\r']) =~= seq![' ']);
}

/// Deleting is moving on and taking back: behind the cursor as before it, one character goes.
pub proof fn lemma_delete_is_right_and_backspace(draft: DraftView)
    requires
        draft.is_valid(),
        draft.cursor < draft.text.len(),
    ensures
        draft.deleted() == draft.moved_to(draft.cursor + 1).backspaced(),
{
    let ahead = draft.moved_to(draft.cursor + 1);
    assert(ahead.before().drop_last() =~= draft.before());
    assert(ahead.after() =~= draft.after().drop_first());
    assert(draft.deleted().text =~= ahead.backspaced().text);
}

/// The input row is the prompt and behind it a part of the line around the cursor; the cursor
/// stands behind what is shown before it. A line that fits is shown as a whole.
pub proof fn lemma_input_row_shows_the_line(draft: DraftView, width: nat)
    requires
        draft.is_valid(),
        7 < width,
    ensures
        exists|start: int, end: int|
            {
                &&& 0 <= start <= draft.cursor <= end <= draft.text.len()
                &&& input_row(draft, width) == "reply> "@ + #[trigger] draft.text.subrange(
                    start,
                    end,
                )
                &&& input_column(draft, width) == 7 + columns(
                    draft.text.subrange(start, draft.cursor),
                )
                &&& columns(draft.text) <= width - 7 ==> start == 0 && end == draft.text.len()
            },
{
    reveal_strlit("reply> ");
    assert(REPLY_PROMPT@.len() == 7);
    lemma_input_fits(draft, width);
    let available = (width - 7) as nat;
    let start = window_start(draft, available);
    let shown = window(draft, available);
    let end = start + shown.len();
    let rest = draft.text.skip(start);
    lemma_fit_count(rest, available);
    assert(shown =~= draft.text.subrange(start, end));
    if columns(draft.text) <= available {
        lemma_columns_concat(draft.before(), draft.after());
        assert(draft.before() + draft.after() =~= draft.text);
        lemma_window_before(draft.before(), available);
        assert(start == 0);
        assert(rest =~= draft.text);
        assert(rest.take(rest.len() as int) =~= rest);
        lemma_fit_covers(rest, available, rest.len() as int);
    }
    assert(input_row(draft, width) == "reply> "@ + draft.text.subrange(start, end));
}

/// A row leaves the last column of the terminal free, and always has one column.
pub proof fn lemma_usable_columns(terminal_width: u16)
    ensures
        terminal_width >= 2 ==> usable_columns(terminal_width) + 1 == terminal_width,
        terminal_width < 2 ==> usable_columns(terminal_width) == 1,
{
}

} // verus!
