//! Numbers in text: decimal and hexadecimal digits, and the sizes of a text in
//! UTF-8 bytes and UTF-16 units.
use crate::text::chars_of;
use vstd::prelude::*;

verus! {

/// The character for a decimal digit.
pub open spec fn digit_char(d: nat) -> char {
    (48 + d) as char
}

/// The decimal digits of `n`, without leading zeros.
pub open spec fn decimal(n: nat) -> Seq<char>
    decreases n,
{
    if n < 10 {
        seq![digit_char(n)]
    } else {
        decimal(n / 10).push(digit_char(n % 10))
    }
}

fn digit_for(d: u8) -> (c: char)
    requires
        d < 10,
    ensures
        c == digit_char(d as nat),
{
    (48u8 + d) as char
}

/// A decimal text has at least one character, and each is a digit.
pub proof fn lemma_decimal_digits(n: nat)
    ensures
        decimal(n).len() > 0,
        forall|i: int| 0 <= i < decimal(n).len() ==> '0' <= #[trigger] decimal(n)[i] <= '9',
    decreases n,
{
    if n >= 10 {
        lemma_decimal_digits(n / 10);
    }
}

/// The decimal text of a number.
pub fn decimal_text(n: u64) -> (s: String)
    ensures
        s@ == decimal(n as nat),
{
    let mut reversed: Vec<char> = Vec::new();
    let mut rest: u64 = n;
    while rest >= 10
        invariant
            decimal(n as nat) =~= decimal(rest as nat) + reversed@.reverse(),
        decreases rest,
    {
        let c: char = digit_for((rest % 10) as u8);
        let ghost before = reversed@;
        let ghost old_rest = rest as nat;
        reversed.push(c);
        rest = rest / 10;
        assert(reversed@.reverse() =~= seq![c] + before.reverse());
        assert(decimal(old_rest) =~= decimal(rest as nat).push(c));
    }
    let ghost before = reversed@;
    let c: char = digit_for(rest as u8);
    reversed.push(c);
    assert(reversed@.reverse() =~= seq![c] + before.reverse());
    let mut s: String = String::new();
    let n_digits: usize = reversed.len();
    let mut i: usize = n_digits;
    while i > 0
        invariant
            i <= n_digits,
            n_digits == reversed@.len(),
            s@ =~= reversed@.reverse().take(n_digits - i),
        decreases i,
    {
        i = i - 1;
        s.push(reversed[i]);
    }
    assert(reversed@.reverse().take(n_digits as int) =~= reversed@.reverse());
    s
}

/// The decimal text of a size.
pub fn size_text(n: usize) -> (s: String)
    ensures
        s@ == decimal(n as nat),
{
    decimal_text(n as u64)
}

/// The value of a string of decimal digits.
pub open spec fn decimal_value(s: Seq<char>) -> nat
    decreases s.len(),
{
    if s.len() == 0 {
        0
    } else {
        decimal_value(s.drop_last()) * 10 + (s.last() as nat - 48) as nat
    }
}

/// Every character of `s` is a decimal digit, and there is one.
pub open spec fn all_digits(s: Seq<char>) -> bool {
    s.len() > 0 && forall|i: int| 0 <= i < s.len() ==> '0' <= #[trigger] s[i] <= '9'
}

/// What follows an optional plus sign.
pub open spec fn unsigned_part(s: Seq<char>) -> Seq<char> {
    if s.len() > 0 && s[0] == '+' {
        s.drop_first()
    } else {
        s
    }
}

/// The number that a text of digits, with an optional leading plus sign, writes,
/// where it fits in a `usize`.
pub open spec fn parsed_size(s: Seq<char>) -> Option<usize> {
    let body = unsigned_part(s);
    if all_digits(body) && decimal_value(body) <= usize::MAX {
        Some(decimal_value(body) as usize)
    } else {
        None
    }
}

proof fn lemma_value_grows(s: Seq<char>, i: int)
    requires
        0 <= i <= s.len(),
        forall|j: int| 0 <= j < s.len() ==> '0' <= #[trigger] s[j] <= '9',
    ensures
        decimal_value(s.take(i)) <= decimal_value(s),
    decreases s.len() - i,
{
    if i == s.len() {
        assert(s.take(i) =~= s);
    } else {
        lemma_value_grows(s, i + 1);
        assert(s.take(i + 1).drop_last() =~= s.take(i));
        assert(s.take(i + 1).last() == s[i]);
    }
}

/// Reads a size written in decimal digits, with an optional leading plus sign.
pub fn parse_size(text: &str) -> (r: Option<usize>)
    ensures
        r == parsed_size(text@),
{
    let v: Vec<char> = chars_of(text);
    let start: usize = if v.len() > 0 && v[0] == '+' { 1 } else { 0 };
    let ghost body = unsigned_part(text@);
    assert(body =~= v@.skip(start as int));
    if start >= v.len() {
        return None;
    }
    let mut value: usize = 0;
    let mut i: usize = start;
    while i < v.len()
        invariant
            start <= i <= v.len(),
            v@ == text@,
            body == v@.skip(start as int),
            body == unsigned_part(text@),
            forall|j: int| 0 <= j < i - start ==> '0' <= #[trigger] body[j] <= '9',
            value == decimal_value(body.take(i - start)),
        decreases v.len() - i,
    {
        let c: char = v[i];
        assert(body[i - start] == c);
        if !('0' <= c && c <= '9') {
            return None;
        }
        let d: usize = c as usize - 48;
        assert(body.take(i - start + 1).drop_last() =~= body.take(i - start));
        assert(body.take(i - start + 1).last() == c);
        assert(decimal_value(body.take(i - start + 1)) == value * 10 + d);
        if value > (usize::MAX - d) / 10 {
            proof {
                if all_digits(body) {
                    lemma_value_grows(body, i - start + 1);
                }
                assert(value * 10 + d > usize::MAX);
            }
            return None;
        }
        value = value * 10 + d;
        i = i + 1;
    }
    assert(body.take(body.len() as int) =~= body);
    Some(value)
}

proof fn lemma_value_of_digits(n: nat)
    ensures
        decimal_value(decimal(n)) == n,
    decreases n,
{
    if n >= 10 {
        lemma_value_of_digits(n / 10);
        assert(decimal(n).drop_last() =~= decimal(n / 10));
    } else {
        assert(decimal(n).drop_last() =~= Seq::<char>::empty());
        assert(decimal_value(decimal(n).drop_last()) == 0);
    }
}

/// Reading back the decimal text of a size gives that size.
pub proof fn lemma_parse_of_decimal(n: usize)
    ensures
        parsed_size(decimal(n as nat)) == Some(n),
{
    lemma_value_of_digits(n as nat);
    lemma_decimal_digits(n as nat);
    assert(decimal(n as nat)[0] != '+');
}

/// The lower-case hexadecimal digit for a value below sixteen.
pub open spec fn hex_char(d: nat) -> char {
    if d < 10 {
        (48 + d) as char
    } else {
        (87 + d) as char
    }
}

/// Two hexadecimal digits for each byte.
pub open spec fn hex(bytes: Seq<u8>) -> Seq<char> {
    Seq::new(
        2 * bytes.len(),
        |i: int|
            if i % 2 == 0 {
                hex_char((bytes[i / 2] / 16) as nat)
            } else {
                hex_char((bytes[i / 2] % 16) as nat)
            },
    )
}

fn hex_digit(d: u8) -> (c: char)
    requires
        d < 16,
    ensures
        c == hex_char(d as nat),
{
    if d < 10 {
        (48u8 + d) as char
    } else {
        (87u8 + d) as char
    }
}

/// The bytes as lower-case hexadecimal text, two digits for each byte.
pub fn hex_text(bytes: &[u8]) -> (s: String)
    ensures
        s@ == hex(bytes@),
{
    let mut s: String = String::new();
    for i in 0..bytes.len()
        invariant
            s@ =~= hex(bytes@.take(i as int)),
    {
        s.push(hex_digit(bytes[i] / 16));
        s.push(hex_digit(bytes[i] % 16));
        assert(s@ =~= hex(bytes@.take(i + 1)));
    }
    assert(bytes@.take(bytes@.len() as int) =~= bytes@);
    s
}

/// How many bytes a character takes in UTF-8.
pub open spec fn utf8_size(c: char) -> nat {
    if c <= '\u{7f}' {
        1
    } else if c <= '\u{7ff}' {
        2
    } else if c <= '\u{ffff}' {
        3
    } else {
        4
    }
}

/// How many bytes a text takes in UTF-8.
pub open spec fn utf8_total(s: Seq<char>) -> nat
    decreases s.len(),
{
    if s.len() == 0 {
        0
    } else {
        utf8_total(s.drop_last()) + utf8_size(s.last())
    }
}

/// How many bytes a character takes in UTF-8.
pub fn utf8_width(c: char) -> (n: usize)
    ensures
        n == utf8_size(c),
{
    if c <= '\u{7f}' {
        1
    } else if c <= '\u{7ff}' {
        2
    } else if c <= '\u{ffff}' {
        3
    } else {
        4
    }
}

/// How many UTF-16 units a text takes: two for each character beyond the basic plane.
pub open spec fn utf16_total(s: Seq<char>) -> nat
    decreases s.len(),
{
    if s.len() == 0 {
        0
    } else {
        utf16_total(s.drop_last()) + if s.last() <= '\u{ffff}' {
            1nat
        } else {
            2nat
        }
    }
}

/// How many UTF-16 units a text takes.
pub fn utf16_units(text: &str) -> (n: u128)
    ensures
        n == utf16_total(text@),
{
    let v: Vec<char> = chars_of(text);
    let mut n: u128 = 0;
    for i in 0..v.len()
        invariant
            n == utf16_total(v@.take(i as int)),
            n <= 2 * i,
    {
        assert(v@.take(i + 1).drop_last() =~= v@.take(i as int));
        let step: u128 = if v[i] <= '\u{ffff}' { 1 } else { 2 };
        n = n + step;
    }
    assert(v@.take(v@.len() as int) =~= v@);
    n
}

/// The UTF-16 units of a character: one in the basic plane, beyond it a pair of surrogates.
pub open spec fn utf16_of(c: char) -> Seq<u16> {
    if c <= '\u{ffff}' {
        seq![c as u16]
    } else {
        seq![
            (0xd800 + (c as int - 0x10000) / 0x400) as u16,
            (0xdc00 + (c as int - 0x10000) % 0x400) as u16,
        ]
    }
}

/// A text in UTF-16.
pub open spec fn utf16_encoded(s: Seq<char>) -> Seq<u16>
    decreases s.len(),
{
    if s.len() == 0 {
        Seq::empty()
    } else {
        utf16_encoded(s.drop_last()) + utf16_of(s.last())
    }
}

fn push_utf16(units: &mut Vec<u16>, c: char)
    ensures
        final(units)@ == old(units)@ + utf16_of(c),
{
    let ghost front = units@;
    let code: u32 = c as u32;
    if c <= '\u{ffff}' {
        units.push(code as u16);
    } else {
        let rest: u32 = code - 0x10000;
        units.push((0xd800 + rest / 0x400) as u16);
        units.push((0xdc00 + rest % 0x400) as u16);
    }
    assert(units@ =~= front + utf16_of(c));
}

/// A text in UTF-16 with a zero behind it.
pub fn wide_text(text: &str) -> (r: Vec<u16>)
    ensures
        r@ == utf16_encoded(text@).push(0),
{
    let v: Vec<char> = chars_of(text);
    let mut r: Vec<u16> = Vec::new();
    assert(v@.take(0) =~= Seq::<char>::empty());
    for i in 0..v.len()
        invariant
            r@ == utf16_encoded(v@.take(i as int)),
    {
        assert(v@.take(i + 1).drop_last() =~= v@.take(i as int));
        push_utf16(&mut r, v[i]);
    }
    assert(v@.take(v@.len() as int) =~= v@);
    r.push(0);
    r
}

/// Calls `String::from_utf16` of std: the text that the units encode, or nothing where they
/// encode none.
#[verifier::external_body]
pub(crate) fn utf16_text(units: &[u16]) -> (r: Option<String>)
    ensures
        match r {
            Some(text) => utf16_encoded(text@) == units@,
            None => forall|s: Seq<char>| #[trigger] utf16_encoded(s) != units@,
        },
{
    String::from_utf16(units).ok()
}

/// A text takes as many units in UTF-16 as are counted for it.
pub proof fn lemma_utf16_units(s: Seq<char>)
    ensures
        utf16_encoded(s).len() == utf16_total(s),
    decreases s.len(),
{
    if s.len() > 0 {
        lemma_utf16_units(s.drop_last());
    }
}

/// How many characters a text has.
pub fn char_count(text: &str) -> (n: usize)
    ensures
        n == text@.len(),
{
    let v: Vec<char> = chars_of(text);
    v.len()
}

/// Different numbers have different decimal texts, and only zero starts with the digit zero.
pub proof fn lemma_decimal_tells_numbers_apart(a: nat, b: nat)
    ensures
        decimal(a) == decimal(b) ==> a == b,
        a > 0 ==> decimal(a)[0] != '0',
        a < 10 ==> decimal(a) == seq![(48 + a) as char],
    decreases a,
{
    lemma_value_of_digits(a);
    lemma_value_of_digits(b);
    if a >= 10 {
        lemma_decimal_tells_numbers_apart(a / 10, b);
        lemma_decimal_digits(a / 10);
        assert(decimal(a)[0] == decimal(a / 10)[0]);
    }
}

/// A digit behind a text of digits counts ten times what stood there, and itself.
pub proof fn lemma_value_of_one_more_digit(s: Seq<char>, d: nat)
    requires
        d < 10,
    ensures
        decimal_value(s.push((48 + d) as char)) == 10 * decimal_value(s) + d,
        decimal_value(Seq::<char>::empty()) == 0,
{
    assert(s.push((48 + d) as char).drop_last() =~= s);
}

/// A leading plus sign changes nothing; a text with anything but digits, or without any, is no
/// size.
pub proof fn lemma_what_reads_as_a_size(s: Seq<char>)
    ensures
        s.len() > 0 && '0' <= s[0] <= '9' ==> parsed_size(seq!['+'] + s) == parsed_size(s),
        s.len() == 0 ==> parsed_size(s) is None,
        (exists|i: int| 1 <= i < s.len() && !('0' <= #[trigger] s[i] <= '9')) ==> parsed_size(
            s,
        ) is None,
        s.len() > 0 && s[0] != '+' && !('0' <= s[0] <= '9') ==> parsed_size(s) is None,
{
    if s.len() > 0 && '0' <= s[0] <= '9' {
        assert((seq!['+'] + s).drop_first() =~= s);
    }
    if exists|i: int| 1 <= i < s.len() && !('0' <= #[trigger] s[i] <= '9') {
        let i = choose|i: int| 1 <= i < s.len() && !('0' <= #[trigger] s[i] <= '9');
        let body = unsigned_part(s);
        if s[0] == '+' {
            assert(body[i - 1] == s[i]);
        } else {
            assert(body[i] == s[i]);
        }
    }
}

/// What a hexadecimal digit stands for.
pub open spec fn hex_value(c: char) -> int {
    if '0' <= c <= '9' {
        c as int - 48
    } else {
        c as int - 97 + 10
    }
}

/// Hexadecimal text holds every byte: its two digits, the higher first, give the byte back.
pub proof fn lemma_hex_gives_bytes_back(bytes: Seq<u8>, i: int)
    requires
        0 <= i < bytes.len(),
    ensures
        hex(bytes).len() == 2 * bytes.len(),
        16 * hex_value(hex(bytes)[2 * i]) + hex_value(hex(bytes)[2 * i + 1]) == bytes[i],
        '0' <= hex(bytes)[2 * i] <= '9' || 'a' <= hex(bytes)[2 * i] <= 'f',
        '0' <= hex(bytes)[2 * i + 1] <= '9' || 'a' <= hex(bytes)[2 * i + 1] <= 'f',
{
    assert((2 * i) / 2 == i && (2 * i + 1) / 2 == i);
    assert((2 * i) % 2 == 0 && (2 * i + 1) % 2 == 1);
}

/// Different bytes have different hexadecimal texts.
pub proof fn lemma_hex_tells_bytes_apart(a: Seq<u8>, b: Seq<u8>)
    ensures
        hex(a) == hex(b) ==> a == b,
{
    if hex(a) == hex(b) {
        assert(hex(a).len() == 2 * a.len());
        assert(hex(b).len() == 2 * b.len());
        assert forall|i: int| 0 <= i < a.len() implies a[i] == b[i] by {
            lemma_hex_gives_bytes_back(a, i);
            lemma_hex_gives_bytes_back(b, i);
        }
        assert(a =~= b);
    }
}

/// The bytes counted for a character are those that UTF-8 encodes it in.
pub proof fn lemma_utf8_size_is_the_encoding(c: char)
    ensures
        utf8_size(c) == vstd::utf8::encode_scalar(c as u32).len(),
        1 <= utf8_size(c) <= 4,
{
}

/// The bytes counted for a text are those of its characters, wherever it is divided.
pub proof fn lemma_utf8_total_adds_up(a: Seq<char>, b: Seq<char>)
    ensures
        utf8_total(a + b) == utf8_total(a) + utf8_total(b),
    decreases b.len(),
{
    if b.len() == 0 {
        assert(a + b =~= a);
    } else {
        lemma_utf8_total_adds_up(a, b.drop_last());
        assert((a + b).drop_last() =~= a + b.drop_last());
        assert((a + b).last() == b.last());
    }
}

/// The bytes counted for a text are as many as its encoding in UTF-8 has.
pub proof fn lemma_utf8_total_is_the_encoding(s: Seq<char>)
    ensures
        utf8_total(s) == vstd::utf8::encode_utf8(s).len(),
    decreases s.len(),
{
    if s.len() > 0 {
        let one = seq![s[0]];
        lemma_utf8_total_is_the_encoding(s.drop_first());
        assert(one + s.drop_first() =~= s);
        lemma_utf8_total_adds_up(one, s.drop_first());
        assert(one.drop_last() =~= Seq::<char>::empty());
        assert(utf8_total(one.drop_last()) == 0);
        assert(utf8_total(one) == utf8_size(s[0]));
        lemma_utf8_size_is_the_encoding(s[0]);
    }
}

/// A text takes one UTF-16 unit for each character, and one more for each beyond the basic plane.
pub proof fn lemma_utf16_counts_wide_characters(s: Seq<char>)
    ensures
        utf16_total(s) == s.len() + s.filter(|c: char| c > '\u{ffff}').len(),
    decreases s.len(),
{
    reveal(Seq::filter);
    if s.len() > 0 {
        lemma_utf16_counts_wide_characters(s.drop_last());
    }
}

/// The UTF-16 units of a character give it back: one unit is its number, and of a pair the first
/// is a high and the second a low surrogate, which together count from 0x10000 on.
pub proof fn lemma_utf16_units_give_the_character_back(c: char)
    ensures
        c as u32 <= 0xffff ==> utf16_of(c).len() == 1 && utf16_of(c)[0] == c as u32,
        c as u32 > 0xffff ==> {
            let u = utf16_of(c);
            &&& u.len() == 2
            &&& 0xd800 <= u[0] <= 0xdbff
            &&& 0xdc00 <= u[1] <= 0xdfff
            &&& 0x10000 + (u[0] - 0xd800) * 0x400 + (u[1] - 0xdc00) == c as u32
        },
{
}

/// A text is encoded in UTF-16 character by character, in its order.
pub proof fn lemma_utf16_encodes_part_by_part(a: Seq<char>, c: char, b: Seq<char>)
    ensures
        utf16_encoded(a + b) == utf16_encoded(a) + utf16_encoded(b),
        utf16_encoded(seq![c]) == utf16_of(c),
    decreases b.len(),
{
    let none = Seq::<char>::empty();
    assert(seq![c].drop_last() =~= none);
    assert(utf16_encoded(none) =~= Seq::<u16>::empty());
    assert(utf16_encoded(seq![c]) =~= utf16_of(c));
    if b.len() == 0 {
        assert(a + b =~= a);
        assert(utf16_encoded(a) + utf16_encoded(b) =~= utf16_encoded(a));
    } else {
        lemma_utf16_encodes_part_by_part(a, c, b.drop_last());
        assert((a + b).drop_last() =~= a + b.drop_last());
        assert((a + b).last() == b.last());
        assert(utf16_encoded(a + b) =~= utf16_encoded(a) + utf16_encoded(b));
    }
}

} // verus!
