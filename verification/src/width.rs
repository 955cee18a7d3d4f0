//! Terminal columns: how wide a text is, and cutting, padding and wrapping by width.
use crate::digits::{utf8_size, utf8_total, utf8_width};
use crate::text::{chars_of, is_control, texts};
use unicode_width::{UnicodeWidthChar, UnicodeWidthStr};
use vstd::prelude::*;
use vstd::utf8::{encode_scalar, encode_utf8};

verus! {

/// What `UnicodeWidthChar::width` returns for a character.
pub uninterp spec fn unicode_char_columns(c: char) -> Option<usize>;

/// What `UnicodeWidthStr::width` returns for a text.
pub uninterp spec fn unicode_text_columns(s: Seq<char>) -> usize;

/// Every character lies between the space and the tilde.
pub open spec fn is_printable_ascii(s: Seq<char>) -> bool {
    forall|i: int| 0 <= i < s.len() ==> ' ' <= #[trigger] s[i] <= '~'
}

/// Calls `UnicodeWidthChar::width` of the crate `unicode-width`: nothing for exactly the control
/// characters, one column for printable ASCII, and never more than three columns.
#[verifier::external_body]
fn unicode_char_width(c: char) -> (r: Option<usize>)
    ensures
        r == unicode_char_columns(c),
        r is None <==> is_control(c),
        r is Some ==> r->0 <= 3,
        ' ' <= c <= '~' ==> r == Some(1usize),
{
    UnicodeWidthChar::width(c)
}

/// Calls `UnicodeWidthStr::width` of the crate `unicode-width`: one column for each character of
/// a text in printable ASCII. Of other texts it is only said that the width is a function of the
/// text: ligatures, emoji sequences and the like have a width of their own.
#[verifier::external_body]
pub(crate) fn text_columns(s: &str) -> (r: usize)
    ensures
        r == unicode_text_columns(s@),
        is_printable_ascii(s@) ==> r == s@.len(),
{
    UnicodeWidthStr::width(s)
}

/// The columns of one character; a control character takes none.
pub open spec fn char_columns(c: char) -> nat {
    match unicode_char_columns(c) {
        Some(n) => n as nat,
        None => 0,
    }
}

/// The columns of the characters of `s`, added up.
pub open spec fn columns(s: Seq<char>) -> nat
    decreases s.len(),
{
    if s.len() == 0 {
        0
    } else {
        columns(s.drop_last()) + char_columns(s.last())
    }
}

/// The columns of two texts in a row are the sum of their columns.
pub proof fn lemma_columns_concat(a: Seq<char>, b: Seq<char>)
    ensures
        columns(a + b) == columns(a) + columns(b),
    decreases b.len(),
{
    if b.len() == 0 {
        assert(a + b =~= a);
    } else {
        lemma_columns_concat(a, b.drop_last());
        assert((a + b).drop_last() =~= a + b.drop_last());
    }
}

proof fn lemma_columns_push(a: Seq<char>, c: char)
    ensures
        columns(a.push(c)) == columns(a) + char_columns(c),
{
    assert(a.push(c).drop_last() =~= a);
}

/// The columns of one character; a control character takes none.
pub fn char_width(c: char) -> (n: usize)
    ensures
        n == char_columns(c),
        n <= 3,
        ' ' <= c <= '~' ==> n == 1,
{
    match unicode_char_width(c) {
        Some(n) => n,
        None => 0,
    }
}

/// The columns of the given characters, added up.
pub fn chars_width(characters: &[char]) -> (n: u128)
    ensures
        n == columns(characters@),
{
    let mut n: u128 = 0;
    for i in 0..characters.len()
        invariant
            n == columns(characters@.take(i as int)),
            n <= 3 * i,
    {
        assert(characters@.take(i + 1).drop_last() =~= characters@.take(i as int));
        n = n + char_width(characters[i]) as u128;
    }
    assert(characters@.take(characters@.len() as int) =~= characters@);
    n
}

/// How many characters at the front of `s` fit in `width` columns together.
pub open spec fn fit_count(s: Seq<char>, width: nat) -> nat
    decreases s.len(),
{
    if s.len() == 0 || char_columns(s[0]) > width {
        0
    } else {
        1 + fit_count(s.drop_first(), (width - char_columns(s[0])) as nat)
    }
}

/// The longest front of `s` that fits in `width` columns.
pub open spec fn display_front(s: Seq<char>, width: nat) -> Seq<char> {
    s.take(fit_count(s, width) as int)
}

/// The count of characters that fit is exact: they fit, and one more would not.
pub proof fn lemma_fit_count(s: Seq<char>, width: nat)
    ensures
        fit_count(s, width) <= s.len(),
        columns(s.take(fit_count(s, width) as int)) <= width,
        fit_count(s, width) < s.len() ==> columns(s.take(fit_count(s, width) as int + 1)) > width,
    decreases s.len(),
{
    if s.len() == 0 {
        assert(s.take(0) =~= s);
    } else if char_columns(s[0]) > width {
        assert(s.take(0) =~= Seq::<char>::empty());
        lemma_columns_push(Seq::<char>::empty(), s[0]);
        assert(s.take(1) =~= Seq::<char>::empty().push(s[0]));
    } else {
        let rest = s.drop_first();
        let left = (width - char_columns(s[0])) as nat;
        lemma_fit_count(rest, left);
        let n = fit_count(rest, left);
        let head = seq![s[0]];
        assert(columns(head) == char_columns(s[0])) by {
            assert(head =~= Seq::<char>::empty().push(s[0]));
            lemma_columns_push(Seq::<char>::empty(), s[0]);
        }
        assert(s.take(n as int + 1) =~= head + rest.take(n as int));
        lemma_columns_concat(head, rest.take(n as int));
        if n < rest.len() {
            assert(s.take(n as int + 2) =~= head + rest.take(n as int + 1));
            lemma_columns_concat(head, rest.take(n as int + 1));
        }
    }
}

/// How many characters at the front fit in `width` columns together.
pub(crate) fn count_fitting(chars: &[char], width: usize) -> (n: usize)
    ensures
        n == fit_count(chars@, width as nat),
        n <= chars@.len(),
{
    let mut left: usize = width;
    let mut i: usize = 0;
    assert(chars@.skip(0) =~= chars@);
    while i < chars.len()
        invariant
            i <= chars.len(),
            left <= width,
            fit_count(chars@, width as nat) == i + fit_count(chars@.skip(i as int), left as nat),
        decreases chars.len() - i,
    {
        let w: usize = char_width(chars[i]);
        assert(chars@.skip(i as int)[0] == chars@[i as int]);
        if w > left {
            return i;
        }
        assert(chars@.skip(i as int).drop_first() =~= chars@.skip(i + 1));
        left = left - w;
        i = i + 1;
    }
    i
}

/// The longest front of `value` that fits in `width` columns.
pub fn display_prefix(value: &str, width: usize) -> (r: String)
    ensures
        r@ == display_front(value@, width as nat),
{
    let v: Vec<char> = chars_of(value);
    let n: usize = count_fitting(v.as_slice(), width);
    let r: String = crate::text::string_of(&v[0..n]);
    assert(v@.subrange(0, n as int) =~= v@.take(n as int));
    r
}

proof fn lemma_utf8_total(s: Seq<char>)
    ensures
        utf8_total(s) == encode_utf8(s).len(),
    decreases s.len(),
{
    if s.len() > 0 {
        lemma_utf8_total(s.drop_first());
        lemma_utf8_cons(s);
        vstd::utf8::char_is_scalar(s[0]);
        vstd::utf8::char_u32_cast(s[0], s[0] as u32);
        assert(encode_scalar(s[0] as u32).len() == utf8_size(s[0]));
    }
}

proof fn lemma_utf8_cons(s: Seq<char>)
    requires
        s.len() > 0,
    ensures
        utf8_total(s) == utf8_size(s[0]) + utf8_total(s.drop_first()),
    decreases s.len(),
{
    if s.len() == 1 {
        assert(s.drop_last() =~= Seq::<char>::empty());
        assert(s.drop_first() =~= Seq::<char>::empty());
        assert(utf8_total(Seq::<char>::empty()) == 0);
    } else {
        lemma_utf8_cons(s.drop_last());
        assert(s.drop_last().drop_first() =~= s.drop_first().drop_last());
        assert(s.drop_first().last() == s.last());
    }
}

proof fn lemma_utf8_front(s: Seq<char>, i: int)
    requires
        0 <= i <= s.len(),
    ensures
        utf8_total(s.take(i)) <= utf8_total(s),
    decreases s.len() - i,
{
    if i == s.len() {
        assert(s.take(i) =~= s);
    } else {
        lemma_utf8_front(s, i + 1);
        assert(s.take(i + 1).drop_last() =~= s.take(i));
    }
}

/// The byte offset at which the part of `value` that fits in `columns` columns ends.
pub fn display_column_byte_index(value: &str, columns: usize) -> (r: usize)
    ensures
        r == utf8_total(display_front(value@, columns as nat)),
{
    let v: Vec<char> = chars_of(value);
    let n: usize = count_fitting(v.as_slice(), columns);
    let bytes: &[u8] = value.as_bytes();
    let size: usize = bytes.len();
    proof {
        lemma_utf8_total(value@);
    }
    let mut total: usize = 0;
    for i in 0..n
        invariant
            v@ == value@,
            n <= v.len(),
            size == utf8_total(value@),
            total == utf8_total(v@.take(i as int)),
    {
        proof {
            lemma_utf8_front(v@, i + 1);
            assert(v@.take(i + 1).drop_last() =~= v@.take(i as int));
        }
        total = total + utf8_width(v[i]);
    }
    total
}

/// `n` times the same character.
pub open spec fn repeated(c: char, n: nat) -> Seq<char> {
    Seq::new(n, |i: int| c)
}

/// The text of `n` times the same character.
pub fn repeat_char(c: char, n: usize) -> (s: String)
    ensures
        s@ == repeated(c, n as nat),
{
    let mut s: String = String::new();
    for i in 0..n
        invariant
            s@ =~= repeated(c, i as nat),
    {
        s.push(c);
    }
    s
}

/// A label, with two spaces at each side, in the middle of a horizontal rule.
pub open spec fn ruled_label(label: Seq<char>, width: nat) -> Seq<char> {
    let padded = repeated(' ', 2) + label + repeated(' ', 2);
    let label_width = unicode_text_columns(padded) as nat;
    if label_width >= width {
        display_front(padded, width)
    } else {
        let remaining = (width - label_width) as nat;
        repeated('─', remaining / 2) + padded + repeated('─', (remaining - remaining / 2) as nat)
    }
}

/// A label, with two spaces at each side, in the middle of a horizontal rule.
pub fn centered_rule(label: &str, width: usize) -> (r: String)
    ensures
        r@ == ruled_label(label@, width as nat),
{
    let mut padded: String = repeat_char(' ', 2);
    padded.append(label);
    padded.append(repeat_char(' ', 2).as_str());
    let label_width: usize = text_columns(padded.as_str());
    if label_width >= width {
        return display_prefix(padded.as_str(), width);
    }
    let remaining: usize = width - label_width;
    let mut r: String = repeat_char('─', remaining / 2);
    r.append(padded.as_str());
    r.append(repeat_char('─', remaining - remaining / 2).as_str());
    r
}

/// `value` in a field of `width` columns: padded with spaces, or cut with an ellipsis.
pub open spec fn padded(value: Seq<char>, width: nat) -> Seq<char> {
    let current = unicode_text_columns(value) as nat;
    if current <= width {
        value + repeated(' ', (width - current) as nat)
    } else if width == 0 {
        Seq::empty()
    } else {
        let short = display_front(value, (width - 1) as nat).push('…');
        let short_width = unicode_text_columns(short) as nat;
        short + repeated(
            ' ',
            if short_width <= width {
                (width - short_width) as nat
            } else {
                0
            },
        )
    }
}

/// `value` in a field of `width` columns: padded with spaces, or cut with an ellipsis.
pub fn pad_display(value: &str, width: usize) -> (r: String)
    ensures
        r@ == padded(value@, width as nat),
{
    let current: usize = text_columns(value);
    if current <= width {
        let mut r: String = value.to_owned();
        r.append(repeat_char(' ', width - current).as_str());
        return r;
    }
    if width == 0 {
        return String::new();
    }
    let mut shortened: String = display_prefix(value, width - 1);
    shortened.push('…');
    let shortened_width: usize = text_columns(shortened.as_str());
    let fill: usize = width.saturating_sub(shortened_width);
    shortened.append(repeat_char(' ', fill).as_str());
    shortened
}

/// `s` broken into rows: each character goes on the last row while it fits, else on a new one.
/// A character wider than a whole row is left out.
pub open spec fn wrapped(s: Seq<char>, width: nat) -> Seq<Seq<char>>
    decreases s.len(),
{
    if s.len() == 0 {
        seq![Seq::empty()]
    } else {
        let front = wrapped(s.drop_last(), width);
        let c = s.last();
        if char_columns(c) > width {
            front
        } else if columns(front.last()) + char_columns(c) > width {
            front.push(seq![c])
        } else {
            front.drop_last().push(front.last().push(c))
        }
    }
}

/// The rows of a line; a line in no columns at all is one empty row.
pub open spec fn wrapped_line(s: Seq<char>, width: nat) -> Seq<Seq<char>> {
    if width == 0 {
        seq![Seq::empty()]
    } else {
        wrapped(s, width)
    }
}

/// The characters of all rows, one after the other.
pub open spec fn run_together(rows: Seq<Seq<char>>) -> Seq<char>
    decreases rows.len(),
{
    if rows.len() == 0 {
        Seq::empty()
    } else {
        run_together(rows.drop_last()) + rows.last()
    }
}

/// The characters of `s` that fit in a row of `width` columns at all.
pub open spec fn showable(s: Seq<char>, width: nat) -> Seq<char> {
    s.filter(|c: char| char_columns(c) <= width)
}

/// There is always a row to write on.
pub proof fn lemma_wrapped_nonempty(s: Seq<char>, width: nat)
    ensures
        wrapped(s, width).len() > 0,
        wrapped_line(s, width).len() > 0,
        wrapped(s, width).len() <= s.len() + 1,
    decreases s.len(),
{
    if s.len() > 0 {
        lemma_wrapped_nonempty(s.drop_last(), width);
    }
}

/// No row of a wrapped line is wider than was asked for.
pub proof fn lemma_wrapped_fits(s: Seq<char>, width: nat, k: int)
    requires
        0 <= k < wrapped_line(s, width).len(),
    ensures
        columns(wrapped_line(s, width)[k]) <= width,
{
    assert(columns(Seq::<char>::empty()) == 0);
    if width > 0 {
        lemma_rows_fit(s, width);
    }
}

proof fn lemma_rows_fit(s: Seq<char>, width: nat)
    ensures
        forall|k: int|
            0 <= k < wrapped(s, width).len() ==> columns(#[trigger] wrapped(s, width)[k]) <= width,
    decreases s.len(),
{
    if s.len() == 0 {
        assert(columns(Seq::<char>::empty()) == 0);
    } else {
        lemma_rows_fit(s.drop_last(), width);
        lemma_wrapped_nonempty(s.drop_last(), width);
        let front = wrapped(s.drop_last(), width);
        let c = s.last();
        lemma_columns_push(front.last(), c);
        lemma_columns_push(Seq::<char>::empty(), c);
        assert(seq![c] =~= Seq::<char>::empty().push(c));
        assert forall|k: int| 0 <= k < wrapped(s, width).len() implies columns(
            #[trigger] wrapped(s, width)[k],
        ) <= width by {
            if k < front.len() - 1 {
                assert(wrapped(s, width)[k] == front[k]);
            } else if k == front.len() - 1 {
                assert(columns(front[k]) <= width);
            }
        }
    }
}

/// Wrapping loses nothing but the characters that no row can hold, and keeps their order.
pub proof fn lemma_wrapped_keeps_text(s: Seq<char>, width: nat)
    requires
        width > 0,
    ensures
        run_together(wrapped_line(s, width)) == showable(s, width),
{
    lemma_rows_keep_text(s, width);
}

proof fn lemma_rows_keep_text(s: Seq<char>, width: nat)
    ensures
        run_together(wrapped(s, width)) == showable(s, width),
    decreases s.len(),
{
    reveal(Seq::filter);
    let keep = |c: char| char_columns(c) <= width;
    if s.len() == 0 {
        let rows = wrapped(s, width);
        assert(rows.drop_last() =~= Seq::<Seq<char>>::empty());
        assert(run_together(rows.drop_last()) =~= Seq::<char>::empty());
        assert(run_together(rows) =~= Seq::<char>::empty());
        assert(s.filter(keep) =~= Seq::<char>::empty());
    } else {
        lemma_rows_keep_text(s.drop_last(), width);
        lemma_wrapped_nonempty(s.drop_last(), width);
        let front = wrapped(s.drop_last(), width);
        let c = s.last();
        let rows = wrapped(s, width);
        if char_columns(c) > width {
        } else if columns(front.last()) + char_columns(c) > width {
            assert(rows.drop_last() =~= front);
            assert(run_together(rows) =~= run_together(front).push(c));
        } else {
            assert(rows.drop_last() =~= front.drop_last());
            assert(run_together(rows) =~= run_together(front).push(c));
        }
    }
}

/// Wrapping is greedy: a row ends only where the first character of the next row does not fit.
pub proof fn lemma_wrapped_greedy(s: Seq<char>, width: nat, k: int)
    requires
        width > 0,
        0 < k < wrapped_line(s, width).len(),
    ensures
        wrapped_line(s, width)[k].len() > 0,
        columns(wrapped_line(s, width)[k - 1]) + char_columns(wrapped_line(s, width)[k][0]) > width,
    decreases s.len(),
{
    lemma_wrapped_nonempty(s.drop_last(), width);
    let front = wrapped(s.drop_last(), width);
    if k < front.len() {
        lemma_wrapped_greedy(s.drop_last(), width, k);
        assert(wrapped(s, width)[k - 1] == front[k - 1]);
    }
}

/// Breaks a line into rows of at most `width` columns.
pub fn wrap_display_line(line: &str, width: usize) -> (rows: Vec<String>)
    ensures
        texts(rows@) == wrapped_line(line@, width as nat),
{
    let mut rows: Vec<String> = Vec::new();
    let mut row: String = String::new();
    if width == 0 {
        rows.push(row);
        assert(texts(rows@) =~= seq![Seq::<char>::empty()]);
        return rows;
    }
    let mut row_width: usize = 0;
    for c in it: line.chars()
        invariant
            it.seq() == line@,
            row_width == columns(row@),
            row_width <= width,
            wrapped(line@.take(it.index() as int), width as nat) =~= texts(rows@).push(row@),
    {
        let ghost i = it.index() as int;
        let ghost front = wrapped(line@.take(i), width as nat);
        assert(line@.take(i + 1).drop_last() =~= line@.take(i));
        assert(line@.take(i + 1).last() == c);
        assert(front.last() == row@);
        assert(front.drop_last() =~= texts(rows@));
        let character_width: usize = char_width(c);
        if character_width <= width {
            proof {
                lemma_columns_push(row@, c);
                lemma_columns_push(Seq::<char>::empty(), c);
                assert(seq![c] =~= Seq::<char>::empty().push(c));
            }
            if character_width > width - row_width {
                let ghost done = rows@;
                let ghost full = row;
                rows.push(row);
                row = String::new();
                row_width = 0;
                assert(texts(rows@) =~= texts(done).push(full@));
            }
            row.push(c);
            row_width = row_width + character_width;
        }
    }
    assert(line@.take(line@.len() as int) =~= line@);
    let ghost done = rows@;
    let ghost last = row;
    rows.push(row);
    assert(texts(rows@) =~= texts(done).push(last@));
    rows
}

/// A character takes the columns that it is said to take, and none where nothing is said of it.
pub proof fn lemma_char_columns(c: char)
    ensures
        unicode_char_columns(c) is Some ==> char_columns(c) == unicode_char_columns(c)->0,
        unicode_char_columns(c) is None ==> char_columns(c) == 0,
        columns(seq![c]) == char_columns(c),
{
    assert(seq![c].drop_last() =~= Seq::<char>::empty());
    assert(columns(Seq::<char>::empty()) == 0);
}

proof fn lemma_columns_front(s: Seq<char>, i: int)
    requires
        0 <= i < s.len(),
    ensures
        char_columns(s[i]) <= columns(s),
        columns(s.take(i)) <= columns(s),
    decreases s.len(),
{
    if i == s.len() - 1 {
        assert(s.take(i) =~= s.drop_last());
    } else {
        lemma_columns_front(s.drop_last(), i);
        assert(s.take(i) =~= s.drop_last().take(i));
    }
}

/// A line that fits in a row is one row, and the row is the line.
pub proof fn lemma_short_line_is_one_row(s: Seq<char>, width: nat)
    requires
        width > 0,
        columns(s) <= width,
    ensures
        wrapped_line(s, width).len() == 1,
        wrapped_line(s, width)[0] == s,
    decreases s.len(),
{
    if s.len() == 0 {
        assert(wrapped_line(s, width)[0] =~= s);
    } else {
        let front = s.drop_last();
        lemma_columns_front(s, s.len() - 1);
        lemma_short_line_is_one_row(front, width);
        assert(wrapped_line(s, width)[0] =~= front.push(s.last()));
        assert(front.push(s.last()) =~= s);
    }
}

/// Where every character finds room in a row, the rows run together are the line: nothing is
/// lost, doubled or moved. A character that is too wide for a row is the only thing left out.
pub proof fn lemma_wrapping_loses_nothing(s: Seq<char>, width: nat)
    requires
        width > 0,
    ensures
        (forall|i: int| 0 <= i < s.len() ==> char_columns(#[trigger] s[i]) <= width)
            ==> run_together(wrapped_line(s, width)) == s,
        run_together(wrapped_line(s, width)) == s.filter(|c: char| char_columns(c) <= width),
{
    lemma_wrapped_keeps_text(s, width);
    if forall|i: int| 0 <= i < s.len() ==> char_columns(#[trigger] s[i]) <= width {
        lemma_all_kept(s, width);
    }
}

proof fn lemma_all_kept(s: Seq<char>, width: nat)
    requires
        forall|i: int| 0 <= i < s.len() ==> char_columns(#[trigger] s[i]) <= width,
    ensures
        s.filter(|c: char| char_columns(c) <= width) == s,
    decreases s.len(),
{
    reveal(Seq::filter);
    let keep = |c: char| char_columns(c) <= width;
    if s.len() == 0 {
        assert(s.filter(keep) =~= s);
    } else {
        let front = s.drop_last();
        assert forall|i: int| 0 <= i < front.len() implies char_columns(#[trigger] front[i])
            <= width by {
            assert(front[i] == s[i]);
        }
        lemma_all_kept(front, width);
        assert(char_columns(s[s.len() - 1]) <= width);
        assert(front.push(s.last()) =~= s);
    }
}

/// A repeated character is that character so many times.
pub proof fn lemma_repeated(c: char, n: nat)
    ensures
        repeated(c, n).len() == n,
        forall|i: int| 0 <= i < n ==> #[trigger] repeated(c, n)[i] == c,
{
}

/// A value that fits its field stands in it unchanged, with spaces behind it for the columns that
/// are left. One that does not is cut as late as one column for the ellipsis allows.
pub proof fn lemma_padded_keeps_the_value(value: Seq<char>, width: nat)
    ensures
        ({
            let field = padded(value, width);
            let current = unicode_text_columns(value) as nat;
            &&& current <= width ==> {
                &&& field.len() == value.len() + (width - current)
                &&& field.take(value.len() as int) == value
                &&& forall|i: int| value.len() <= i < field.len() ==> #[trigger] field[i] == ' '
            }
            &&& current > width && width > 0 ==> exists|n: int|
                {
                    &&& 0 <= n <= value.len()
                    &&& n < field.len()
                    &&& columns(#[trigger] value.take(n)) <= width - 1
                    &&& n < value.len() ==> columns(value.take(n + 1)) > width - 1
                    &&& field.take(n) == value.take(n)
                    &&& field[n] == '…'
                    &&& forall|i: int| n < i < field.len() ==> #[trigger] field[i] == ' '
                }
        }),
{
    let field = padded(value, width);
    let current = unicode_text_columns(value) as nat;
    if current <= width {
        assert(field.take(value.len() as int) =~= value);
    } else if width > 0 {
        let n = fit_count(value, (width - 1) as nat) as int;
        lemma_fit_count(value, (width - 1) as nat);
        assert(field.take(n) =~= value.take(n));
        assert(field[n] == '…');
    }
}

/// A label in a rule stands whole in its middle where it fits, between two spaces at each side,
/// and the rule fills the row; the two sides differ by one dash at most.
pub proof fn lemma_ruled_label_is_centered(label: Seq<char>, width: nat)
    ensures
        ({
            let wide = repeated(' ', 2) + label + repeated(' ', 2);
            let taken = unicode_text_columns(wide) as nat;
            taken < width ==> exists|left: nat, right: nat|
                {
                    &&& left <= right <= left + 1
                    &&& left + taken + right == width
                    &&& ruled_label(label, width) == #[trigger] repeated('─', left) + wide
                        + #[trigger] repeated('─', right)
                }
        }),
        ({
            let wide = repeated(' ', 2) + label + repeated(' ', 2);
            unicode_text_columns(wide) as nat >= width ==> columns(ruled_label(label, width))
                <= width && ruled_label(label, width) == wide.take(
                ruled_label(label, width).len() as int,
            )
        }),
{
    let wide = repeated(' ', 2) + label + repeated(' ', 2);
    let taken = unicode_text_columns(wide) as nat;
    lemma_fit_count(wide, width);
    if taken < width {
        let remaining = (width - taken) as nat;
        let left = remaining / 2;
        let right = (remaining - remaining / 2) as nat;
        assert(ruled_label(label, width) == repeated('─', left) + wide + repeated('─', right));
    }
}

/// What is shown of a text is its front: all of it where it fits, and else as much as fits.
pub proof fn lemma_display_front_is_front(s: Seq<char>, width: nat)
    ensures
        display_front(s, width).len() <= s.len(),
        display_front(s, width) == s.take(display_front(s, width).len() as int),
        columns(display_front(s, width)) <= width,
        columns(s) <= width ==> display_front(s, width) == s,
        display_front(s, width).len() < s.len() ==> columns(
            s.take(display_front(s, width).len() as int + 1),
        ) > width,
{
    lemma_fit_count(s, width);
    let n = fit_count(s, width) as int;
    if columns(s) <= width && n < s.len() {
        assert(s.take(s.len() as int) =~= s);
        if n + 1 < s.len() {
            lemma_columns_front(s, n + 1);
        }
    }
    assert(s.take(s.len() as int) =~= s);
}

} // verus!
