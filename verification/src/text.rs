//! Text as a sequence of characters: classification, trimming, comparison and sanitizing.
use vstd::prelude::*;
use vstd::utf8::encode_utf8;

verus! {

/// `String::push` of std appends one character at the end of the string.
pub assume_specification[ String::push ](s: &mut String, c: char)
    ensures
        final(s)@ == old(s)@.push(c),
;

/// What `String::from_utf8_lossy` makes of bytes.
pub uninterp spec fn utf8_lossy(bytes: Seq<u8>) -> Seq<char>;

/// Calls `String::from_utf8_lossy` of std: bytes that are the UTF-8 form of a text give that
/// text. What it puts in place of other bytes is only named.
#[verifier::external_body]
pub(crate) fn lossy_text(bytes: &[u8]) -> (r: String)
    ensures
        r@ == utf8_lossy(bytes@),
        forall|s: Seq<char>| bytes@ == #[trigger] encode_utf8(s) ==> r@ == s,
{
    String::from_utf8_lossy(bytes).into_owned()
}

/// The control characters: Unicode category `Cc`, that is C0, DEL and C1.
pub open spec fn is_control(c: char) -> bool {
    c <= '\u{1f}' || ('\u{7f}' <= c && c <= '\u{9f}')
}

/// The characters with the Unicode property `White_Space`.
pub open spec fn is_white(c: char) -> bool {
    ||| '\u{9}' <= c && c <= '\u{d}'
    ||| c == ' '
    ||| c == '\u{85}'
    ||| c == '\u{a0}'
    ||| c == '\u{1680}'
    ||| '\u{2000}' <= c && c <= '\u{200a}'
    ||| c == '\u{2028}'
    ||| c == '\u{2029}'
    ||| c == '\u{202f}'
    ||| c == '\u{205f}'
    ||| c == '\u{3000}'
}

/// Whether `c` is a control character.
pub fn char_is_control(c: char) -> (r: bool)
    ensures
        r == is_control(c),
{
    c <= '\u{1f}' || ('\u{7f}' <= c && c <= '\u{9f}')
}

/// Whether `c` is white space.
pub fn char_is_white(c: char) -> (r: bool)
    ensures
        r == is_white(c),
{
    ('\u{9}' <= c && c <= '\u{d}') || c == ' ' || c == '\u{85}' || c == '\u{a0}' || c == '\u{1680}'
        || ('\u{2000}' <= c && c <= '\u{200a}') || c == '\u{2028}' || c == '\u{2029}'
        || c == '\u{202f}' || c == '\u{205f}' || c == '\u{3000}'
}

/// No character of `s` is a control character.
pub open spec fn control_free(s: Seq<char>) -> bool {
    forall|i: int| 0 <= i < s.len() ==> !is_control(#[trigger] s[i])
}

/// The texts of a list of strings.
pub open spec fn texts(list: Seq<String>) -> Seq<Seq<char>> {
    list.map_values(|s: String| s@)
}

/// The characters of a string, in order.
pub fn chars_of(s: &str) -> (v: Vec<char>)
    ensures
        v@ == s@,
{
    let mut v: Vec<char> = Vec::new();
    for c in it: s.chars()
        invariant
            it.seq() == s@,
            v@ == s@.take(it.index() as int),
    {
        v.push(c);
    }
    assert(s@.take(s@.len() as int) =~= s@);
    v
}

/// The string made of the given characters.
pub fn string_of(chars: &[char]) -> (s: String)
    ensures
        s@ == chars@,
{
    let mut s: String = String::new();
    for i in 0..chars.len()
        invariant
            s@ == chars@.take(i as int),
    {
        s.push(chars[i]);
    }
    assert(chars@.take(chars@.len() as int) =~= chars@);
    s
}

/// Whether two strings hold the same characters.
pub fn same_text(a: &str, b: &str) -> (r: bool)
    ensures
        r == (a@ == b@),
{
    a.to_owned() == b.to_owned()
}

/// Whether an optional string is present and holds the characters of `b`.
pub fn optional_is(a: Option<&str>, b: &str) -> (r: bool)
    ensures
        r == (a is Some && a->0@ == b@),
{
    match a {
        Some(text) => same_text(text, b),
        None => false,
    }
}

/// `s` without the white space at its two ends.
pub open spec fn trimmed(s: Seq<char>) -> Seq<char>
    decreases s.len(),
{
    if s.len() == 0 {
        s
    } else if is_white(s.first()) {
        trimmed(s.drop_first())
    } else if is_white(s.last()) {
        trimmed(s.drop_last())
    } else {
        s
    }
}

/// A trimmed text neither starts nor ends with white space.
pub proof fn lemma_trimmed_ends(s: Seq<char>)
    ensures
        trimmed(s).len() <= s.len(),
        trimmed(s).len() > 0 ==> !is_white(trimmed(s).first()) && !is_white(trimmed(s).last()),
        control_free(s) ==> control_free(trimmed(s)),
    decreases s.len(),
{
    if s.len() == 0 {
    } else if is_white(s.first()) {
        lemma_trimmed_ends(s.drop_first());
    } else if is_white(s.last()) {
        lemma_trimmed_ends(s.drop_last());
    }
}

proof fn lemma_trim_range(s: Seq<char>, start: int, end: int)
    requires
        0 <= start <= end <= s.len(),
        start < s.len() && is_white(s[start]) ==> start == end,
        start < end ==> !is_white(s[end - 1]),
        forall|i: int| 0 <= i < start ==> is_white(#[trigger] s[i]),
        forall|i: int| end <= i < s.len() ==> is_white(#[trigger] s[i]),
    ensures
        trimmed(s) == s.subrange(start, end),
    decreases s.len(),
{
    if s.len() == 0 {
        assert(s =~= s.subrange(start, end));
    } else if is_white(s.first()) {
        let t = s.drop_first();
        if start > 0 {
            lemma_trim_range(t, start - 1, end - 1);
            assert(t.subrange(start - 1, end - 1) =~= s.subrange(start, end));
        } else {
            // Everything is white space.
            assert(start == end);
            lemma_trim_range(t, 0, 0);
            assert(t.subrange(0, 0) =~= s.subrange(start, end));
        }
    } else if is_white(s.last()) {
        assert(start == 0);
        assert(end >= 1) by {
            if end == 0 {
                assert(is_white(s[0]));
            }
        }
        lemma_trim_range(s.drop_last(), start, end);
        assert(s.drop_last().subrange(start, end) =~= s.subrange(start, end));
    } else {
        assert(start == 0) by {
            if start > 0 {
                assert(is_white(s[0]));
            }
        }
        assert(end == s.len()) by {
            if end < s.len() {
                assert(is_white(s[s.len() - 1]));
            }
        }
        assert(s.subrange(0, s.len() as int) =~= s);
    }
}

/// `text` without the white space at its two ends.
pub fn trim(text: &str) -> (r: String)
    ensures
        r@ == trimmed(text@),
{
    let v: Vec<char> = chars_of(text);
    let n: usize = v.len();
    let mut start: usize = 0;
    while start < n && char_is_white(v[start])
        invariant
            n == v.len(),
            start <= n,
            forall|i: int| 0 <= i < start ==> is_white(#[trigger] v@[i]),
        decreases n - start,
    {
        start = start + 1;
    }
    let mut end: usize = n;
    while start < end && char_is_white(v[end - 1])
        invariant
            n == v.len(),
            start <= end <= n,
            forall|i: int| end <= i < n ==> is_white(#[trigger] v@[i]),
        decreases end,
    {
        end = end - 1;
    }
    proof {
        if start == n {
            lemma_trim_range(v@, start as int, end as int);
        } else {
            assert(!is_white(v@[start as int]));
            assert(end > start);
            lemma_trim_range(v@, start as int, end as int);
        }
    }
    string_of(&v[start..end])
}

/// Whether a text is empty once trimmed.
pub fn is_blank(text: &str) -> (r: bool)
    ensures
        r == (trimmed(text@).len() == 0),
{
    let t: String = trim(text);
    t.as_str().is_empty()
}

/// Dictionary order of two texts by code point.
pub open spec fn text_le(a: Seq<char>, b: Seq<char>) -> bool
    decreases a.len(),
{
    ||| a.len() == 0
    ||| b.len() > 0 && a[0] < b[0]
    ||| b.len() > 0 && a[0] == b[0] && text_le(a.drop_first(), b.drop_first())
}

/// Any two texts can be put in order.
pub proof fn lemma_text_total(a: Seq<char>, b: Seq<char>)
    ensures
        text_le(a, b) || text_le(b, a),
    decreases a.len(),
{
    if a.len() > 0 && b.len() > 0 && a[0] == b[0] {
        lemma_text_total(a.drop_first(), b.drop_first());
    }
}

/// Dictionary order is transitive.
pub proof fn lemma_text_transitive(a: Seq<char>, b: Seq<char>, c: Seq<char>)
    requires
        text_le(a, b),
        text_le(b, c),
    ensures
        text_le(a, c),
    decreases a.len(),
{
    if a.len() > 0 && a[0] == b[0] && b[0] == c[0] {
        lemma_text_transitive(a.drop_first(), b.drop_first(), c.drop_first());
    }
}

/// Two texts that each come no later than the other are the same text.
pub proof fn lemma_text_antisymmetric(a: Seq<char>, b: Seq<char>)
    requires
        text_le(a, b),
        text_le(b, a),
    ensures
        a == b,
    decreases a.len(),
{
    if a.len() == 0 || b.len() == 0 {
        assert(a =~= b);
    } else {
        lemma_text_antisymmetric(a.drop_first(), b.drop_first());
        assert(a =~= seq![a[0]] + a.drop_first());
        assert(b =~= seq![b[0]] + b.drop_first());
    }
}

/// Whether `a` comes no later than `b` in dictionary order.
pub fn text_at_most(a: &str, b: &str) -> (r: bool)
    ensures
        r == text_le(a@, b@),
{
    let x: Vec<char> = chars_of(a);
    let y: Vec<char> = chars_of(b);
    let mut i: usize = 0;
    assert(x@.skip(0) =~= x@);
    assert(y@.skip(0) =~= y@);
    while i < x.len()
        invariant
            x@ == a@,
            y@ == b@,
            i <= x.len(),
            i <= y.len(),
            text_le(x@, y@) == text_le(x@.skip(i as int), y@.skip(i as int)),
        decreases x.len() - i,
    {
        assert(x@.skip(i as int)[0] == x@[i as int]);
        if i >= y.len() {
            return false;
        }
        assert(y@.skip(i as int)[0] == y@[i as int]);
        if x[i] < y[i] {
            return true;
        }
        if x[i] > y[i] {
            return false;
        }
        assert(x@.skip(i as int).drop_first() =~= x@.skip(i + 1));
        assert(y@.skip(i as int).drop_first() =~= y@.skip(i + 1));
        i = i + 1;
    }
    true
}

/// The maximal runs of `s` without white space, in order.
pub open spec fn words(s: Seq<char>) -> Seq<Seq<char>>
    decreases s.len(),
{
    if s.len() == 0 {
        Seq::empty()
    } else if is_white(s.last()) {
        words(s.drop_last())
    } else if s.len() >= 2 && !is_white(s[s.len() - 2]) {
        let front = words(s.drop_last());
        front.drop_last().push(front.last().push(s.last()))
    } else {
        words(s.drop_last()).push(seq![s.last()])
    }
}

/// The given words with one space between each two.
pub open spec fn joined(list: Seq<Seq<char>>) -> Seq<char>
    decreases list.len(),
{
    if list.len() == 0 {
        Seq::empty()
    } else if list.len() == 1 {
        list[0]
    } else {
        joined(list.drop_last()).push(' ') + list.last()
    }
}

/// A control character stands for a space, any other character for itself.
pub open spec fn masked_char(c: char) -> char {
    if is_control(c) {
        ' '
    } else {
        c
    }
}

/// `s` with a space in place of each control character.
pub open spec fn masked(s: Seq<char>) -> Seq<char> {
    s.map_values(|c: char| masked_char(c))
}

/// `s` as one inert terminal line.
pub open spec fn sanitized(s: Seq<char>) -> Seq<char> {
    joined(words(masked(s)))
}

/// One printable line with single inner spaces: what a terminal can show as it is.
pub open spec fn is_clean_line(s: Seq<char>) -> bool {
    &&& control_free(s)
    &&& forall|i: int| 0 <= i < s.len() && is_white(#[trigger] s[i]) ==> s[i] == ' '
    &&& s.len() > 0 ==> !is_white(s.first()) && !is_white(s.last())
    &&& forall|i: int|
        0 <= i < s.len() - 1 && is_white(#[trigger] s[i]) ==> !is_white(s[i + 1])
}

proof fn lemma_words_shape(s: Seq<char>)
    ensures
        s.len() > 0 && !is_white(s.last()) ==> words(s).len() > 0,
        forall|k: int| 0 <= k < words(s).len() ==> (#[trigger] words(s)[k]).len() > 0,
    decreases s.len(),
{
    if s.len() > 0 {
        lemma_words_shape(s.drop_last());
        let front = words(s.drop_last());
        if is_white(s.last()) {
        } else if s.len() >= 2 && !is_white(s[s.len() - 2]) {
            assert(s.drop_last().last() == s[s.len() - 2]);
            assert(front.len() > 0);
            assert forall|k: int| 0 <= k < words(s).len() implies (#[trigger] words(
                s,
            )[k]).len() > 0 by {
                if k < front.len() - 1 {
                    assert(words(s)[k] == front[k]);
                }
            }
        } else {
            assert forall|k: int| 0 <= k < words(s).len() implies (#[trigger] words(
                s,
            )[k]).len() > 0 by {
                if k < front.len() {
                    assert(words(s)[k] == front[k]);
                }
            }
        }
    }
}

proof fn lemma_joined_empty(list: Seq<Seq<char>>)
    requires
        forall|k: int| 0 <= k < list.len() ==> (#[trigger] list[k]).len() > 0,
    ensures
        (joined(list).len() == 0) == (list.len() == 0),
{
    if list.len() > 1 {
        assert(list[list.len() - 1].len() > 0);
    } else if list.len() == 1 {
        assert(list[0].len() > 0);
    }
}

proof fn lemma_joined_extend(list: Seq<Seq<char>>, c: char)
    requires
        list.len() > 0,
    ensures
        joined(list.drop_last().push(list.last().push(c))) == joined(list).push(c),
{
    let longer = list.drop_last().push(list.last().push(c));
    if list.len() > 1 {
        assert(longer.drop_last() =~= list.drop_last());
        assert(joined(longer) =~= joined(list).push(c));
    }
}

proof fn lemma_joined_push(list: Seq<Seq<char>>, c: char)
    ensures
        joined(list.push(seq![c])) == if list.len() == 0 {
            seq![c]
        } else {
            joined(list).push(' ').push(c)
        },
{
    let longer = list.push(seq![c]);
    assert(longer.drop_last() =~= list);
    if list.len() > 0 {
        assert(joined(longer) =~= joined(list).push(' ').push(c));
    }
}

/// Convert untrusted chat or status text into one inert terminal line.
///
/// Terminal escape protocols require control characters such as ESC, BEL, CR or C1 controls.
/// Replacing every Unicode control before folding white space prevents chat content from moving
/// the cursor, changing terminal state, or opening an OSC sequence.
pub fn sanitize_terminal_text(value: &str) -> (r: String)
    ensures
        r@ == sanitized(value@),
        is_clean_line(r@),
{
    let mut out: String = String::new();
    let mut empty: bool = true;
    let mut in_word: bool = false;
    let ghost m = masked(value@);
    for c in it: value.chars()
        invariant
            it.seq() == value@,
            m == masked(value@),
            out@ == joined(words(m.take(it.index() as int))),
            empty == (out@.len() == 0),
            in_word == (it.index() > 0 && !is_white(m[it.index() - 1])),
    {
        let ghost i = it.index() as int;
        let ghost front = m.take(i);
        let shown: char = if char_is_control(c) { ' ' } else { c };
        proof {
            assert(m.take(i + 1).drop_last() =~= front);
            assert(m.take(i + 1).last() == shown);
            lemma_words_shape(front);
            lemma_joined_empty(words(front));
            if i > 0 {
                assert(front.last() == m[i - 1]);
                assert(m.take(i + 1)[i - 1] == m[i - 1]);
            }
        }
        if char_is_white(shown) {
            in_word = false;
        } else if in_word {
            proof {
                lemma_joined_extend(words(front), shown);
            }
            out.push(shown);
        } else {
            proof {
                lemma_joined_push(words(front), shown);
            }
            if !empty {
                out.push(' ');
            }
            out.push(shown);
            assert(empty ==> out@ =~= seq![shown]);
            in_word = true;
            empty = false;
        }
    }
    proof {
        assert(m.take(m.len() as int) =~= m);
        lemma_sanitized_is_clean(value@);
    }
    out
}

proof fn lemma_words_clean(s: Seq<char>)
    requires
        control_free(s),
    ensures
        forall|k: int, j: int|
            0 <= k < words(s).len() && 0 <= j < words(s)[k].len() ==> {
                let c = #[trigger] words(s)[k][j];
                !is_white(c) && !is_control(c)
            },
    decreases s.len(),
{
    if s.len() > 0 {
        lemma_words_clean(s.drop_last());
        lemma_words_shape(s.drop_last());
        let front = words(s.drop_last());
        assert(!is_control(s[s.len() - 1]));
        if s.len() >= 2 && !is_white(s.last()) && !is_white(s[s.len() - 2]) {
            assert(s.drop_last().last() == s[s.len() - 2]);
        }
        assert forall|k: int, j: int|
            0 <= k < words(s).len() && 0 <= j < words(s)[k].len() implies {
                let c = #[trigger] words(s)[k][j];
                !is_white(c) && !is_control(c)
            } by {
            if is_white(s.last()) {
                assert(words(s)[k][j] == front[k][j]);
            } else if s.len() >= 2 && !is_white(s[s.len() - 2]) {
                if k < front.len() - 1 {
                    assert(words(s)[k][j] == front[k][j]);
                } else if j < front[k].len() {
                    assert(words(s)[k][j] == front[k][j]);
                }
            } else if k < front.len() {
                assert(words(s)[k][j] == front[k][j]);
            }
        }
    }
}

proof fn lemma_joined_clean(list: Seq<Seq<char>>)
    requires
        forall|k: int| 0 <= k < list.len() ==> (#[trigger] list[k]).len() > 0,
        forall|k: int, j: int|
            0 <= k < list.len() && 0 <= j < list[k].len() ==> {
                let c = #[trigger] list[k][j];
                !is_white(c) && !is_control(c)
            },
    ensures
        is_clean_line(joined(list)),
    decreases list.len(),
{
    if list.len() == 0 {
    } else if list.len() == 1 {
        let s = joined(list);
        assert(list[0].len() > 0);
        assert forall|i: int| 0 <= i < s.len() implies !is_control(#[trigger] s[i]) && !is_white(
            s[i],
        ) by {
            assert(s[i] == list[0][i]);
        }
    } else {
        let front = list.drop_last();
        assert forall|k: int| 0 <= k < front.len() implies (#[trigger] front[k]).len() > 0 by {
            assert(front[k] == list[k]);
        }
        assert forall|k: int, j: int| 0 <= k < front.len() && 0 <= j < front[k].len() implies {
            let c = #[trigger] front[k][j];
            !is_white(c) && !is_control(c)
        } by {
            assert(front[k][j] == list[k][j]);
        }
        lemma_joined_clean(front);
        lemma_joined_empty(front);
        let head = joined(front);
        let tail = list.last();
        let s = joined(list);
        assert(list[list.len() - 1].len() > 0);
        assert(s =~= head.push(' ') + tail);
        assert forall|i: int| head.len() < i < s.len() implies !is_control(#[trigger] s[i])
            && !is_white(s[i]) by {
            assert(s[i] == list[list.len() - 1][i - head.len() - 1]);
        }
        assert forall|i: int| 0 <= i < s.len() implies !is_control(#[trigger] s[i]) by {
            if i < head.len() {
                assert(s[i] == head[i]);
            }
        }
        assert forall|i: int| 0 <= i < s.len() && is_white(#[trigger] s[i]) implies s[i]
            == ' ' by {
            if i < head.len() {
                assert(s[i] == head[i]);
            }
        }
        assert(s.first() == head.first());
        assert(s.last() == tail.last());
        assert forall|i: int| 0 <= i < s.len() - 1 && is_white(#[trigger] s[i]) implies !is_white(
            s[i + 1],
        ) by {
            if i < head.len() - 1 {
                assert(s[i] == head[i]);
                assert(s[i + 1] == head[i + 1]);
            } else if i == head.len() - 1 {
                assert(s[i] == head.last());
            } else {
                assert(i == head.len());
            }
        }
    }
}

/// Whatever the text, its sanitized form is one clean line.
pub proof fn lemma_sanitized_is_clean(s: Seq<char>)
    ensures
        is_clean_line(sanitized(s)),
{
    let m = masked(s);
    assert(control_free(m));
    lemma_words_shape(m);
    lemma_words_clean(m);
    lemma_joined_clean(words(m));
}

proof fn lemma_joined_words_of_clean(s: Seq<char>)
    requires
        control_free(s),
        forall|i: int| 0 <= i < s.len() && is_white(#[trigger] s[i]) ==> s[i] == ' ',
        s.len() > 0 ==> !is_white(s.first()),
        forall|i: int|
            0 <= i < s.len() - 1 && is_white(#[trigger] s[i]) ==> !is_white(s[i + 1]),
    ensures
        joined(words(s)) == if s.len() > 0 && is_white(s.last()) {
            s.drop_last()
        } else {
            s
        },
    decreases s.len(),
{
    if s.len() > 0 {
        let front = s.drop_last();
        assert forall|i: int| 0 <= i < front.len() - 1 && is_white(
            #[trigger] front[i],
        ) implies !is_white(front[i + 1]) by {
            assert(front[i] == s[i]);
        }
        if front.len() > 0 {
            assert(front.first() == s.first());
            assert(front.last() == s[s.len() - 2]);
        }
        lemma_joined_words_of_clean(front);
        lemma_words_shape(front);
        lemma_joined_empty(words(front));
        if is_white(s.last()) {
        } else if s.len() >= 2 && !is_white(s[s.len() - 2]) {
            lemma_joined_extend(words(front), s.last());
            assert(front.push(s.last()) =~= s);
        } else {
            lemma_joined_push(words(front), s.last());
            if s.len() == 1 {
                assert(seq![s.last()] =~= s);
            } else {
                let i = s.len() - 2;
                assert(is_white(s[i]));
                assert(s[i] == ' ');
                if s.len() == 2 {
                    assert(s.first() == s[0]);
                }
                assert(front.drop_last().push(' ').push(s.last()) =~= s);
            }
        }
    } else {
        assert(joined(words(s)) =~= s);
    }
}

/// Sanitizing a clean line changes nothing, so sanitizing twice is sanitizing once.
pub proof fn lemma_sanitize_idempotent(s: Seq<char>)
    ensures
        is_clean_line(s) ==> sanitized(s) == s,
        sanitized(sanitized(s)) == sanitized(s),
{
    lemma_sanitized_is_clean(s);
    if is_clean_line(s) {
        assert(masked(s) =~= s);
        lemma_joined_words_of_clean(s);
    }
    let t = sanitized(s);
    assert(masked(t) =~= t);
    lemma_joined_words_of_clean(t);
}

/// The control characters by their numbers: below 32, and from 127 to 159.
pub proof fn lemma_control_characters(c: char)
    ensures
        is_control(c) <==> (c as u32) < 32 || 127 <= c as u32 <= 159,
{
}

/// The white space by its numbers.
pub proof fn lemma_white_space(c: char)
    ensures
        is_white(c) <==> {
            let n = c as u32;
            ||| 0x09 <= n <= 0x0d
            ||| n == 0x20
            ||| n == 0x85
            ||| n == 0xa0
            ||| n == 0x1680
            ||| 0x2000 <= n <= 0x200a
            ||| n == 0x2028
            ||| n == 0x2029
            ||| n == 0x202f
            ||| n == 0x205f
            ||| n == 0x3000
        },
{
}

/// What `s` holds from `from` up to `to` is all of it but the white space at its two ends.
pub open spec fn is_inner_part(s: Seq<char>, from: int, to: int) -> bool {
    &&& 0 <= from <= to <= s.len()
    &&& forall|i: int| 0 <= i < from ==> is_white(#[trigger] s[i])
    &&& forall|i: int| to <= i < s.len() ==> is_white(#[trigger] s[i])
    &&& from < to ==> !is_white(s[from]) && !is_white(s[to - 1])
}

/// Trimming takes the white space at the two ends and nothing else: what is left is one piece of
/// the text, starts and ends with something that is not white, and is surrounded by white space.
pub proof fn lemma_trimmed_is_the_inner_part(s: Seq<char>) -> (ends: (int, int))
    ensures
        is_inner_part(s, ends.0, ends.1),
        trimmed(s) == s.subrange(ends.0, ends.1),
    decreases s.len(),
{
    if s.len() == 0 {
        assert(trimmed(s) =~= s.subrange(0, 0));
        (0, 0)
    } else if is_white(s.first()) {
        let t = s.drop_first();
        let (from, to) = lemma_trimmed_is_the_inner_part(t);
        assert(t.subrange(from, to) =~= s.subrange(from + 1, to + 1));
        assert forall|i: int| 0 <= i < from + 1 implies is_white(#[trigger] s[i]) by {
            if i > 0 {
                assert(s[i] == t[i - 1]);
            }
        }
        assert forall|i: int| to + 1 <= i < s.len() implies is_white(#[trigger] s[i]) by {
            assert(s[i] == t[i - 1]);
        }
        if from < to {
            assert(s[from + 1] == t[from]);
            assert(s[to] == t[to - 1]);
        }
        (from + 1, to + 1)
    } else if is_white(s.last()) {
        let t = s.drop_last();
        let (from, to) = lemma_trimmed_is_the_inner_part(t);
        assert(t.subrange(from, to) =~= s.subrange(from, to));
        assert forall|i: int| 0 <= i < from implies is_white(#[trigger] s[i]) by {
            assert(s[i] == t[i]);
        }
        assert forall|i: int| to <= i < s.len() implies is_white(#[trigger] s[i]) by {
            if i < t.len() {
                assert(s[i] == t[i]);
            }
        }
        if from < to {
            assert(s[from] == t[from]);
            assert(s[to - 1] == t[to - 1]);
        }
        (from, to)
    } else {
        assert(s.subrange(0, s.len() as int) =~= s);
        (0, s.len() as int)
    }
}

/// Nothing is left of a text when it is trimmed exactly where it is all white space.
pub proof fn lemma_blank_is_all_white(s: Seq<char>)
    ensures
        trimmed(s).len() == 0 <==> forall|i: int| 0 <= i < s.len() ==> is_white(#[trigger] s[i]),
{
    let (from, to) = lemma_trimmed_is_the_inner_part(s);
    if from < to {
        assert(!is_white(s[from]));
    } else {
        assert forall|i: int| 0 <= i < s.len() implies is_white(#[trigger] s[i]) by {
            if i < from {
            } else {
                assert(to <= i);
            }
        }
    }
}

/// Texts are ordered by their first difference; a text comes before every longer one that starts
/// with it.
pub proof fn lemma_first_difference_decides(a: Seq<char>, b: Seq<char>, k: int)
    requires
        0 <= k <= a.len(),
        k <= b.len(),
        a.take(k) == b.take(k),
    ensures
        k < a.len() && k < b.len() && a[k] < b[k] ==> text_le(a, b) && !text_le(b, a),
        k == a.len() ==> text_le(a, b),
        k == a.len() && k < b.len() ==> !text_le(b, a),
    decreases k,
{
    if k > 0 {
        assert(a[0] == a.take(k)[0]);
        assert(b[0] == b.take(k)[0]);
        assert(a.drop_first().take(k - 1) =~= a.take(k).drop_first());
        assert(b.drop_first().take(k - 1) =~= b.take(k).drop_first());
        lemma_first_difference_decides(a.drop_first(), b.drop_first(), k - 1);
    }
}

proof fn lemma_words_hold_the_visible(s: Seq<char>)
    ensures
        joined(words(s)).filter(|c: char| !is_white(c)) == s.filter(|c: char| !is_white(c)),
    decreases s.len(),
{
    reveal(Seq::filter);
    let seen = |c: char| !is_white(c);
    if s.len() == 0 {
        assert(joined(words(s)) =~= s);
    } else {
        let front = s.drop_last();
        lemma_words_hold_the_visible(front);
        lemma_words_shape(front);
        let list = words(front);
        let c = s.last();
        if is_white(c) {
        } else if s.len() >= 2 && !is_white(s[s.len() - 2]) {
            assert(front.last() == s[s.len() - 2]);
            lemma_joined_extend(list, c);
            assert(joined(list).push(c).drop_last() =~= joined(list));
        } else {
            lemma_joined_push(list, c);
            if list.len() == 0 {
                assert(joined(list) =~= Seq::<char>::empty());
                assert(seq![c].drop_last() =~= Seq::<char>::empty());
                assert(seq![c].filter(seen) =~= seq![c].drop_last().filter(seen).push(c));
            } else {
                let spaced = joined(list).push(' ');
                assert(spaced.push(c).drop_last() =~= spaced);
                assert(spaced.drop_last() =~= joined(list));
                assert(spaced.filter(seen) == joined(list).filter(seen));
            }
        }
    }
}

proof fn lemma_masked_visible(s: Seq<char>)
    ensures
        masked(s).filter(|c: char| !is_white(c)) == s.filter(
            |c: char| !is_white(c) && !is_control(c),
        ),
    decreases s.len(),
{
    reveal(Seq::filter);
    if s.len() == 0 {
        assert(masked(s) =~= s);
    } else {
        lemma_masked_visible(s.drop_last());
        assert(masked(s).drop_last() =~= masked(s.drop_last()));
        assert(masked(s).last() == masked_char(s.last()));
    }
}

/// Making a text inert loses nothing that can be seen: every character that is neither white space
/// nor a control character is kept, in its order, and nothing but spaces is put between them.
pub proof fn lemma_sanitized_keeps_what_is_visible(s: Seq<char>)
    ensures
        sanitized(s).filter(|c: char| !is_white(c)) == s.filter(
            |c: char| !is_white(c) && !is_control(c),
        ),
        forall|i: int|
            0 <= i < sanitized(s).len() && is_white(#[trigger] sanitized(s)[i]) ==> sanitized(s)[i]
                == ' ',
{
    lemma_words_hold_the_visible(masked(s));
    lemma_masked_visible(s);
    lemma_sanitized_is_clean(s);
}

proof fn lemma_words_split(a: Seq<char>, w: char, b: Seq<char>)
    requires
        is_white(w),
    ensures
        words(a.push(w) + b) == words(a) + words(b),
    decreases b.len(),
{
    let whole = a.push(w) + b;
    if b.len() == 0 {
        assert(whole =~= a.push(w));
        assert(a.push(w).drop_last() =~= a);
        assert(words(b) =~= Seq::<Seq<char>>::empty());
        assert(words(a) + words(b) =~= words(a));
    } else {
        let front = b.drop_last();
        lemma_words_split(a, w, front);
        lemma_words_shape(front);
        assert(whole.drop_last() =~= a.push(w) + front);
        assert(whole.last() == b.last());
        let c = b.last();
        if is_white(c) {
        } else if b.len() >= 2 {
            assert(whole[whole.len() - 2] == b[b.len() - 2]);
            if !is_white(b[b.len() - 2]) {
                assert(front.last() == b[b.len() - 2]);
                let list = words(a) + words(front);
                assert(list.drop_last().push(list.last().push(c)) =~= words(a) + words(b));
            } else {
                assert((words(a) + words(front)).push(seq![c]) =~= words(a) + words(b));
            }
        } else {
            assert(whole[whole.len() - 2] == w);
            assert((words(a) + words(front)).push(seq![c]) =~= words(a) + words(b));
        }
    }
}

proof fn lemma_joined_split(x: Seq<Seq<char>>, y: Seq<Seq<char>>)
    requires
        x.len() > 0,
        y.len() > 0,
    ensures
        joined(x + y) == joined(x).push(' ') + joined(y),
    decreases y.len(),
{
    assert((x + y).drop_last() =~= x + y.drop_last());
    assert((x + y).last() == y.last());
    if y.len() == 1 {
        assert(x + y.drop_last() =~= x);
    } else {
        lemma_joined_split(x, y.drop_last());
        assert(joined(x + y) =~= joined(x).push(' ') + joined(y));
    }
}

/// White space or a control character between two texts parts them by one space; at an end it
/// leaves nothing.
pub proof fn lemma_sanitized_parts_words(a: Seq<char>, w: char, b: Seq<char>)
    requires
        is_white(w) || is_control(w),
    ensures
        sanitized(a.push(w) + b) == if sanitized(a).len() == 0 {
            sanitized(b)
        } else if sanitized(b).len() == 0 {
            sanitized(a)
        } else {
            sanitized(a).push(' ') + sanitized(b)
        },
{
    let x = masked(a);
    let y = masked(b);
    assert(masked(a.push(w) + b) =~= x.push(masked_char(w)) + y);
    lemma_words_split(x, masked_char(w), y);
    lemma_words_shape(x);
    lemma_words_shape(y);
    lemma_joined_empty(words(x));
    lemma_joined_empty(words(y));
    if words(x).len() == 0 {
        assert(words(x) + words(y) =~= words(y));
    } else if words(y).len() == 0 {
        assert(words(x) + words(y) =~= words(x));
    } else {
        lemma_joined_split(words(x), words(y));
    }
}

} // verus!
