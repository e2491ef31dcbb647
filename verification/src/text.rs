//! Text: numbers written out, trimming, and the order of texts.
use vstd::prelude::*;

verus! {

/// The character of a decimal digit.
pub open spec fn digit_char(digit: nat) -> char {
    (48 + digit) as char
}

/// The decimal notation of a number.
pub open spec fn decimal(n: nat) -> Seq<char>
    decreases n,
{
    if n < 10 {
        seq![digit_char(n)]
    } else {
        decimal(n / 10).push(digit_char(n % 10))
    }
}

/// The decimal notation of a number that may be negative.
pub open spec fn signed_decimal(n: int) -> Seq<char> {
    if n < 0 {
        "-"@ + decimal((-n) as nat)
    } else {
        decimal(n as nat)
    }
}

/// The upper-case hexadecimal character of a digit.
pub open spec fn hex_char(digit: nat) -> char {
    if digit < 10 {
        (48 + digit) as char
    } else {
        (55 + digit) as char
    }
}

/// The last `width` hexadecimal digits of a number, padded with zeros.
pub open spec fn hex(n: nat, width: nat) -> Seq<char>
    decreases width,
{
    if width == 0 {
        Seq::empty()
    } else {
        hex(n / 16, (width - 1) as nat).push(hex_char(n % 16))
    }
}

fn hex_digit_text(digit: u32) -> (text: &'static str)
    requires
        digit < 16,
    ensures
        text@ == seq![hex_char(digit as nat)],
{
    proof {
        reveal_strlit("0");
        reveal_strlit("1");
        reveal_strlit("2");
        reveal_strlit("3");
        reveal_strlit("4");
        reveal_strlit("5");
        reveal_strlit("6");
        reveal_strlit("7");
        reveal_strlit("8");
        reveal_strlit("9");
        reveal_strlit("A");
        reveal_strlit("B");
        reveal_strlit("C");
        reveal_strlit("D");
        reveal_strlit("E");
        reveal_strlit("F");
    }
    match digit {
        0 => "0",
        1 => "1",
        2 => "2",
        3 => "3",
        4 => "4",
        5 => "5",
        6 => "6",
        7 => "7",
        8 => "8",
        9 => "9",
        10 => "A",
        11 => "B",
        12 => "C",
        13 => "D",
        14 => "E",
        _ => "F",
    }
}

/// Writes a number in decimal notation.
pub fn decimal_text(n: u64) -> (text: String)
    ensures
        text@ == decimal(n as nat),
    decreases n,
{
    let last = hex_digit_text((n % 10) as u32);
    if n < 10 {
        last.to_owned()
    } else {
        let mut text = decimal_text(n / 10);
        text.append(last);
        assert(text@ =~= decimal((n / 10) as nat).push(digit_char((n % 10) as nat)));
        text
    }
}

/// Writes a number that may be negative in decimal notation.
pub fn signed_decimal_text(n: i64) -> (text: String)
    ensures
        text@ == signed_decimal(n as int),
{
    if n < 0 {
        let mut text = "-".to_owned();
        let magnitude: u64 = (-(n as i128)) as u64;
        text.append(decimal_text(magnitude).as_str());
        text
    } else {
        decimal_text(n as u64)
    }
}

/// Writes the last `width` hexadecimal digits of a number.
pub fn hex_text(n: u32, width: u32) -> (text: String)
    ensures
        text@ == hex(n as nat, width as nat),
    decreases width,
{
    if width == 0 {
        String::new()
    } else {
        let mut text = hex_text(n / 16, width - 1);
        text.append(hex_digit_text(n % 16));
        assert(text@ =~= hex((n / 16) as nat, (width - 1) as nat).push(
            hex_char((n % 16) as nat),
        ));
        text
    }
}

/// Whether a character has the Unicode property `White_Space`.
pub open spec fn white_space(c: char) -> bool {
    let code = c as u32;
    ||| 0x09 <= code <= 0x0D
    ||| code == 0x20
    ||| code == 0x85
    ||| code == 0xA0
    ||| code == 0x1680
    ||| 0x2000 <= code <= 0x200A
    ||| code == 0x2028
    ||| code == 0x2029
    ||| code == 0x202F
    ||| code == 0x205F
    ||| code == 0x3000
}

fn is_white_space(c: char) -> (result: bool)
    ensures
        result == white_space(c),
{
    let code = c as u32;
    (0x09 <= code && code <= 0x0D) || code == 0x20 || code == 0x85 || code == 0xA0 || code == 0x1680
        || (0x2000 <= code && code <= 0x200A) || code == 0x2028 || code == 0x2029 || code == 0x202F
        || code == 0x205F || code == 0x3000
}

/// A text without its leading white space.
pub open spec fn trimmed_start(s: Seq<char>) -> Seq<char>
    decreases s.len(),
{
    if s.len() > 0 && white_space(s[0]) {
        trimmed_start(s.subrange(1, s.len() as int))
    } else {
        s
    }
}

/// A text without its trailing white space.
pub open spec fn trimmed_end(s: Seq<char>) -> Seq<char>
    decreases s.len(),
{
    if s.len() > 0 && white_space(s.last()) {
        trimmed_end(s.drop_last())
    } else {
        s
    }
}

/// A text without its leading and trailing white space.
pub open spec fn trimmed(s: Seq<char>) -> Seq<char> {
    trimmed_end(trimmed_start(s))
}

/// Removes leading and trailing white space.
pub fn trim(text: &str) -> (result: &str)
    ensures
        result@ == trimmed(text@),
{
    let length: usize = text.unicode_len();
    let mut start: usize = 0;
    assert(text@.subrange(0, length as int) =~= text@);
    while start < length && is_white_space(text.get_char(start))
        invariant
            start <= length,
            length == text@.len(),
            trimmed_start(text@) == trimmed_start(text@.subrange(start as int, length as int)),
        decreases length - start,
    {
        assert(text@.subrange(start as int, length as int).subrange(1, length - start)
            =~= text@.subrange(start + 1, length as int));
        start = start + 1;
    }
    let ghost rest = text@.subrange(start as int, length as int);
    assert(start < length ==> rest[0] == text@[start as int]);
    assert(trimmed_start(text@) == rest);
    let mut end: usize = length;
    while end > start && is_white_space(text.get_char(end - 1))
        invariant
            start <= end <= length,
            length == text@.len(),
            rest == text@.subrange(start as int, length as int),
            trimmed_end(rest) == trimmed_end(text@.subrange(start as int, end as int)),
        decreases end,
    {
        assert(text@.subrange(start as int, end as int).drop_last() =~= text@.subrange(
            start as int,
            end - 1,
        ));
        end = end - 1;
    }
    assert(end > start ==> text@.subrange(start as int, end as int).last() == text@[end - 1]);
    text.substring_char(start, end)
}

/// Whether two texts have the same characters.
pub fn same_text(a: &str, b: &str) -> (result: bool)
    ensures
        result == (a@ == b@),
{
    a.to_owned() == b.to_owned()
}

/// The digits `s[0..n]`, read as a decimal number.
pub open spec fn digits_value(s: Seq<char>) -> nat
    decreases s.len(),
{
    if s.len() == 0 {
        0
    } else {
        digits_value(s.drop_last()) * 10 + (s.last() as u32 - 48) as nat
    }
}

/// Whether a character is a decimal digit.
pub open spec fn is_digit(c: char) -> bool {
    48 <= c as u32 <= 57
}

/// The number that a text stands for: digits, perhaps behind one plus sign, whose
/// value is at most `max`.
pub open spec fn parsed_unsigned(s: Seq<char>, max: nat) -> Option<nat> {
    parsed_digits(
        if s.len() > 0 && s[0] == '+' {
            s.subrange(1, s.len() as int)
        } else {
            s
        },
        max,
    )
}

/// The number that a non-empty row of digits stands for, if it is at most `max`.
pub open spec fn parsed_digits(digits: Seq<char>, max: nat) -> Option<nat> {
    if digits.len() > 0 && (forall|i: int| 0 <= i < digits.len() ==> is_digit(#[trigger] digits[i]))
        && digits_value(digits) <= max {
        Some(digits_value(digits))
    } else {
        None
    }
}

proof fn digits_value_grows(s: Seq<char>, n: int)
    requires
        0 <= n <= s.len(),
        forall|i: int| 0 <= i < s.len() ==> is_digit(#[trigger] s[i]),
    ensures
        digits_value(s.subrange(0, n)) <= digits_value(s),
    decreases s.len(),
{
    if n == s.len() {
        assert(s.subrange(0, n) =~= s);
    } else {
        digits_value_grows(s.drop_last(), n);
        assert(s.drop_last().subrange(0, n) =~= s.subrange(0, n));
    }
}

/// Reads a decimal number of at most `max`.
pub fn parse_unsigned(text: &str, max: u64) -> (result: Option<u64>)
    ensures
        match result {
            Some(value) => parsed_unsigned(text@, max as nat) == Some(value as nat),
            None => parsed_unsigned(text@, max as nat) is None,
        },
{
    let length: usize = text.unicode_len();
    let plus: bool = length > 0 && text.get_char(0) == '+';
    let start: usize = if plus {
        1
    } else {
        0
    };
    let ghost digits = if text@.len() > 0 && text@[0] == '+' {
        text@.subrange(1, text@.len() as int)
    } else {
        text@
    };
    assert(digits =~= text@.subrange(start as int, length as int));
    if start == length {
        return None;
    }
    let mut value: u64 = 0;
    let mut position: usize = start;
    while position < length
        invariant
            start <= position <= length,
            length == text@.len(),
            digits == text@.subrange(start as int, length as int),
            parsed_unsigned(text@, max as nat) == parsed_digits(digits, max as nat),
            forall|i: int| 0 <= i < position - start ==> is_digit(#[trigger] digits[i]),
            value == digits_value(digits.subrange(0, position - start)),
            value <= max,
        decreases length - position,
    {
        let c = text.get_char(position);
        let code = c as u32;
        assert(digits[position - start] == c);
        if code < 48 || code > 57 {
            return None;
        }
        let ghost longer = digits.subrange(0, position - start + 1);
        assert(longer.drop_last() =~= digits.subrange(0, position - start));
        let next: u128 = value as u128 * 10 + (code - 48) as u128;
        assert(next == digits_value(longer));
        if next > max as u128 {
            proof {
                if forall|i: int| 0 <= i < digits.len() ==> is_digit(#[trigger] digits[i]) {
                    digits_value_grows(digits, position - start + 1);
                }
            }
            return None;
        }
        value = next as u64;
        position = position + 1;
    }
    assert(digits.subrange(0, length - start) =~= digits);
    Some(value)
}

/// Whether text `a` stands before text `b` in lexicographic order.
pub open spec fn text_before(a: Seq<char>, b: Seq<char>) -> bool
    decreases a.len(),
{
    if b.len() == 0 {
        false
    } else if a.len() == 0 {
        true
    } else if a[0] == b[0] {
        text_before(a.subrange(1, a.len() as int), b.subrange(1, b.len() as int))
    } else {
        (a[0] as u32) < (b[0] as u32)
    }
}

proof fn lemma_char_codes(c: char, d: char)
    ensures
        c as u32 == d as u32 ==> c == d,
{
}

/// Lexicographic order is a total order: of two different texts one stands before the
/// other, never both do, and what does not stand before a text does not stand before what
/// follows it either.
pub proof fn law_text_order(a: Seq<char>, b: Seq<char>, c: Seq<char>)
    ensures
        !(text_before(a, b) && text_before(b, a)),
        text_before(a, b) || text_before(b, a) || a == b,
        !text_before(b, a) && !text_before(c, b) ==> !text_before(c, a),
    decreases a.len() + b.len() + c.len(),
{
    if a.len() > 0 && b.len() > 0 {
        let a_rest = a.subrange(1, a.len() as int);
        let b_rest = b.subrange(1, b.len() as int);
        let c_rest = if c.len() > 0 {
            c.subrange(1, c.len() as int)
        } else {
            c
        };
        law_text_order(a_rest, b_rest, c_rest);
        lemma_char_codes(a[0], b[0]);
        assert(a =~= seq![a[0]] + a_rest);
        assert(b =~= seq![b[0]] + b_rest);
    } else {
        if a.len() == 0 && b.len() == 0 {
            assert(a =~= b);
        }
    }
    if a.len() > 0 && b.len() > 0 && c.len() > 0 {
        lemma_char_codes(a[0], c[0]);
        lemma_char_codes(b[0], c[0]);
    }
}

/// Compares two texts in lexicographic order.
pub fn is_text_before(a: &str, b: &str) -> (result: bool)
    ensures
        result == text_before(a@, b@),
{
    let a_length: usize = a.unicode_len();
    let b_length: usize = b.unicode_len();
    let mut i: usize = 0;
    assert(a@.subrange(0, a_length as int) =~= a@);
    assert(b@.subrange(0, b_length as int) =~= b@);
    while i < a_length && i < b_length
        invariant
            i <= a_length,
            i <= b_length,
            a_length == a@.len(),
            b_length == b@.len(),
            text_before(a@, b@) == text_before(
                a@.subrange(i as int, a_length as int),
                b@.subrange(i as int, b_length as int),
            ),
        decreases a_length - i,
    {
        let ghost a_rest = a@.subrange(i as int, a_length as int);
        let ghost b_rest = b@.subrange(i as int, b_length as int);
        let ca = a.get_char(i);
        let cb = b.get_char(i);
        assert(a_rest[0] == ca && b_rest[0] == cb);
        if ca != cb {
            return (ca as u32) < (cb as u32);
        }
        assert(a_rest.subrange(1, a_rest.len() as int) =~= a@.subrange(i + 1, a_length as int));
        assert(b_rest.subrange(1, b_rest.len() as int) =~= b@.subrange(i + 1, b_length as int));
        i = i + 1;
    }
    i < b_length
}

/// Whether a text is nothing but spaces, tabs and line breaks.
pub open spec fn is_blank(s: Seq<char>) -> bool {
    forall|i: int|
        0 <= i < s.len() ==> (#[trigger] s[i]) as u32 == 32 || 9 <= s[i] as u32 <= 13
}

/// Whether a text begins and ends with visible characters of ASCII.
pub open spec fn is_visible(s: Seq<char>) -> bool {
    &&& s.len() > 0
    &&& 33 <= s[0] as u32 <= 126
    &&& 33 <= s[s.len() - 1] as u32 <= 126
}

/// Trimming takes away the blanks around a text, and nothing else.
pub proof fn law_trimming_takes_blanks_away(before: Seq<char>, s: Seq<char>, after: Seq<char>)
    requires
        is_blank(before),
        is_visible(s),
        is_blank(after),
    ensures
        trimmed(before + s + after) == s,
{
    lemma_trimmed_start(before, s + after);
    assert(before + s + after =~= before + (s + after));
    assert((s + after)[0] == s[0]);
    lemma_trimmed_end(s, after);
}

proof fn lemma_trimmed_start(before: Seq<char>, s: Seq<char>)
    requires
        is_blank(before),
        s.len() > 0,
        33 <= s[0] as u32 <= 126,
    ensures
        trimmed_start(before + s) == s,
    decreases before.len(),
{
    if before.len() == 0 {
        assert(before + s =~= s);
    } else {
        let rest = before.subrange(1, before.len() as int);
        assert((before + s)[0] == before[0]);
        assert((before + s).subrange(1, (before + s).len() as int) =~= rest + s);
        lemma_trimmed_start(rest, s);
    }
}

proof fn lemma_trimmed_end(s: Seq<char>, after: Seq<char>)
    requires
        is_blank(after),
        s.len() > 0,
        33 <= s[s.len() - 1] as u32 <= 126,
    ensures
        trimmed_end(s + after) == s,
    decreases after.len(),
{
    if after.len() == 0 {
        assert(s + after =~= s);
    } else {
        assert((s + after).last() == after.last());
        assert(after[after.len() - 1] == after.last());
        assert((s + after).drop_last() =~= s + after.drop_last());
        lemma_trimmed_end(s, after.drop_last());
    }
}

/// A trimmed text neither begins nor ends with a blank, and is what stands between two parts of
/// the text that are all white space.
pub proof fn law_trimmed_texts_have_no_blanks_around_them(s: Seq<char>) -> (parts: (
    Seq<char>,
    Seq<char>,
))
    ensures
        s == parts.0 + trimmed(s) + parts.1,
        forall|i: int| 0 <= i < parts.0.len() ==> white_space(#[trigger] parts.0[i]),
        forall|i: int| 0 <= i < parts.1.len() ==> white_space(#[trigger] parts.1[i]),
        trimmed(s).len() > 0 ==> !white_space(trimmed(s)[0]) && !white_space(trimmed(s).last()),
{
    let before = lemma_start_is_cut(s);
    let after = lemma_end_is_cut(trimmed_start(s));
    assert(s =~= before + trimmed(s) + after);
    if trimmed(s).len() > 0 {
        assert(trimmed(s)[0] == trimmed_start(s)[0]);
    }
    (before, after)
}

proof fn lemma_start_is_cut(s: Seq<char>) -> (before: Seq<char>)
    ensures
        s == before + trimmed_start(s),
        forall|i: int| 0 <= i < before.len() ==> white_space(#[trigger] before[i]),
        trimmed_start(s).len() > 0 ==> !white_space(trimmed_start(s)[0]),
    decreases s.len(),
{
    if s.len() > 0 && white_space(s[0]) {
        let tail = s.subrange(1, s.len() as int);
        let rest = lemma_start_is_cut(tail);
        let before = seq![s[0]] + rest;
        assert(s =~= seq![s[0]] + tail);
        assert(seq![s[0]] + (rest + trimmed_start(tail)) =~= before + trimmed_start(tail));
        before
    } else {
        assert(s =~= Seq::<char>::empty() + s);
        Seq::empty()
    }
}

proof fn lemma_end_is_cut(s: Seq<char>) -> (after: Seq<char>)
    ensures
        s == trimmed_end(s) + after,
        forall|i: int| 0 <= i < after.len() ==> white_space(#[trigger] after[i]),
        trimmed_end(s).len() > 0 ==> !white_space(trimmed_end(s).last()),
    decreases s.len(),
{
    if s.len() > 0 && white_space(s.last()) {
        let head = s.drop_last();
        let rest = lemma_end_is_cut(head);
        let after = rest.push(s.last());
        assert(s =~= head.push(s.last()));
        assert((trimmed_end(head) + rest).push(s.last()) =~= trimmed_end(head) + after);
        after
    } else {
        assert(s =~= s + Seq::<char>::empty());
        Seq::empty()
    }
}

/// A number is read as it is written: its digits, the last one for the ones, and each one
/// before that for ten times as much. A plus sign may stand before it. A number that is too
/// large is refused.
pub proof fn law_decimal_notation(n: nat, max: nat)
    ensures
        decimal(n).len() > 0,
        forall|i: int|
            0 <= i < decimal(n).len() ==> 48 <= (#[trigger] decimal(n)[i]) as u32 <= 57,
        n < 10 ==> decimal(n) == seq![(48 + n) as char],
        n >= 10 ==> decimal(n) == decimal(n / 10).push((48 + n % 10) as char),
        n <= max ==> parsed_unsigned(decimal(n), max) == Some(n),
        n <= max ==> parsed_unsigned(seq!['+'] + decimal(n), max) == Some(n),
        n > max ==> parsed_unsigned(decimal(n), max) is None,
{
    lemma_decimal(n);
    assert(!(decimal(n)[0] == '+'));
    let signed = seq!['+'] + decimal(n);
    assert(signed[0] == '+');
    assert(signed.subrange(1, signed.len() as int) =~= decimal(n));
    if n < 10 {
        assert(decimal(n) =~= seq![(48 + n) as char]);
    }
}

proof fn lemma_decimal(n: nat)
    ensures
        decimal(n).len() > 0,
        digits_value(decimal(n)) == n,
        forall|i: int| 0 <= i < decimal(n).len() ==> is_digit(#[trigger] decimal(n)[i]),
    decreases n,
{
    if n < 10 {
        assert(decimal(n).drop_last() =~= Seq::<char>::empty());
        assert(digits_value(decimal(n).drop_last()) == 0);
        assert(decimal(n).last() == digit_char(n));
    } else {
        lemma_decimal(n / 10);
        assert(decimal(n).drop_last() =~= decimal(n / 10));
        assert(decimal(n).last() == digit_char(n % 10));
    }
}

/// A text is refused as a number if it is empty or has a character that is no digit, other than
/// one plus sign before the digits.
pub proof fn law_other_texts_are_no_numbers(s: Seq<char>, max: nat, at: int)
    requires
        s.len() == 0 || (0 <= at < s.len() && !(48 <= s[at] as u32 <= 57) && !(at == 0 && s[0]
            == '+')) || s == seq!['+'],
    ensures
        parsed_unsigned(s, max) is None,
{
    if s.len() > 0 && s[0] == '+' {
        let digits = s.subrange(1, s.len() as int);
        if at > 0 && at < s.len() {
            assert(digits[at - 1] == s[at]);
        }
    }
}

/// The first characters that differ decide which of two texts stands first, and the beginning
/// of a text stands before it.
pub proof fn law_first_difference_decides(
    common: Seq<char>,
    a: Seq<char>,
    b: Seq<char>,
)
    ensures
        a.len() == 0 && b.len() > 0 ==> text_before(common + a, common + b),
        a.len() > 0 && b.len() > 0 && (a[0] as u32) < (b[0] as u32) ==> text_before(
            common + a,
            common + b,
        ),
    decreases common.len(),
{
    if common.len() == 0 {
        assert(common + a =~= a);
        assert(common + b =~= b);
        if a.len() > 0 && b.len() > 0 && (a[0] as u32) < (b[0] as u32) {
            assert(a[0] != b[0]);
        }
    } else {
        let rest = common.subrange(1, common.len() as int);
        law_first_difference_decides(rest, a, b);
        let x = common + a;
        let y = common + b;
        assert(x.subrange(1, x.len() as int) =~= rest + a);
        assert(y.subrange(1, y.len() as int) =~= rest + b);
    }
}

} // verus!
