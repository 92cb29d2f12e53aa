//! Numbers in decimal, and the text around them.

use vstd::prelude::*;
use vstd::string::*;
use vstd::utf8::{encode_utf8, is_ascii_chars};

use crate::codec::text_of;

verus! {

/// The largest number, plus one, that `width` digits can spell.
pub open spec fn pow10(width: nat) -> nat
    decreases width,
{
    if width == 0 {
        1
    } else {
        10 * pow10((width - 1) as nat)
    }
}

/// The `width` low-order decimal digits of `x`, as ASCII bytes, zeros in front.
pub open spec fn digits(x: nat, width: nat) -> Seq<u8>
    decreases width,
{
    if width == 0 {
        Seq::empty()
    } else {
        digits(x / 10, (width - 1) as nat).push((48 + x % 10) as u8)
    }
}

/// The number that a string of ASCII digits spells.
pub open spec fn number(s: Seq<u8>) -> nat
    decreases s.len(),
{
    if s.len() == 0 {
        0
    } else {
        10 * number(s.drop_last()) + (s.last() - 48) as nat
    }
}

/// Whether every byte is an ASCII digit.
pub open spec fn all_digits(s: Seq<u8>) -> bool {
    forall|i: int| 0 <= i < s.len() ==> 48 <= #[trigger] s[i] <= 57
}

pub proof fn lemma_digits(x: nat, width: nat)
    ensures
        digits(x, width).len() == width,
        all_digits(digits(x, width)),
        x < pow10(width) ==> number(digits(x, width)) == x,
    decreases width,
{
    if width > 0 {
        lemma_digits(x / 10, (width - 1) as nat);
        assert(digits(x, width).drop_last() =~= digits(x / 10, (width - 1) as nat));
    }
}

/// Two numbers that fit and are spelled alike are the same.
pub proof fn lemma_digits_injective(x: nat, y: nat, width: nat)
    requires
        x < pow10(width),
        y < pow10(width),
        digits(x, width) == digits(y, width),
    ensures
        x == y,
{
    lemma_digits(x, width);
    lemma_digits(y, width);
}

/// Every `u64` fits twenty digits, and every `u16` five.
pub proof fn lemma_pow10_widths()
    ensures
        pow10(5) == 100_000,
        pow10(20) > u64::MAX,
{
    reveal_with_fuel(pow10, 21);
}

/// Appends the `width` low-order decimal digits of `x`, zeros in front.
pub fn push_digits(out: &mut Vec<u8>, x: u64, width: usize)
    ensures
        final(out)@ == old(out)@ + digits(x as nat, width as nat),
    decreases width,
{
    if width > 0 {
        push_digits(out, x / 10, width - 1);
        out.push((48 + x % 10) as u8);
    }
    assert(out@ =~= old(out)@ + digits(x as nat, width as nat));
}

/// ASCII bytes as characters.
pub open spec fn as_chars(bytes: Seq<u8>) -> Seq<char> {
    bytes.map_values(|b: u8| b as char)
}

/// The text that some ASCII bytes spell.
pub fn ascii_text(bytes: Vec<u8>) -> (s: String)
    requires
        forall|i: int| 0 <= i < bytes@.len() ==> #[trigger] bytes@[i] < 128,
    ensures
        s@ == as_chars(bytes@),
{
    let ghost chars = as_chars(bytes@);
    proof {
        assert(is_ascii_chars(chars));
        vstd::utf8::is_ascii_chars_encode_utf8(chars);
        assert(encode_utf8(chars) =~= bytes@) by {
            assert forall|i: int| 0 <= i < chars.len() implies encode_utf8(chars)[i]
                == bytes@[i] by {
                assert(chars[i] as u8 == encode_utf8(chars)[i]);
            }
        }
        vstd::utf8::encode_utf8_valid_utf8(chars);
        vstd::utf8::encode_utf8_decode_utf8(chars);
    }
    match text_of(bytes) {
        Some(s) => {
            proof {
                vstd::utf8::encode_utf8_decode_utf8(s@);
            }
            s
        },
        None => String::new(),
    }
}

/// The decimal form of a number, as ASCII bytes, with no zeros in front.
pub open spec fn decimal(x: nat) -> Seq<u8>
    decreases x,
{
    if x < 10 {
        seq![(48 + x) as u8]
    } else {
        decimal(x / 10).push((48 + x % 10) as u8)
    }
}

/// Appends the decimal form of `x`.
pub fn push_decimal(out: &mut Vec<u8>, x: u64)
    ensures
        final(out)@ == old(out)@ + decimal(x as nat),
    decreases x,
{
    if x >= 10 {
        push_decimal(out, x / 10);
        out.push((48 + x % 10) as u8);
    } else {
        out.push((48 + x) as u8);
    }
    assert(out@ =~= old(out)@ + decimal(x as nat));
}

/// A number in decimal.
pub fn decimal_text(x: u64) -> (s: String)
    ensures
        s@ == as_chars(decimal(x as nat)),
{
    let mut out: Vec<u8> = Vec::new();
    push_decimal(&mut out, x);
    proof {
        lemma_decimal(x as nat);
        assert(out@ =~= decimal(x as nat));
    }
    ascii_text(out)
}

pub open spec fn is_digit(c: char) -> bool {
    '0' <= c <= '9'
}

/// The number that some digits spell.
pub open spec fn digits_value(s: Seq<char>) -> nat
    decreases s.len(),
{
    if s.len() == 0 {
        0
    } else {
        10 * digits_value(s.drop_last()) + (s.last() as nat - 48) as nat
    }
}

/// Whether a text is digits and nothing else, and at least one.
pub open spec fn spells_number(s: Seq<char>) -> bool {
    s.len() > 0 && forall|i: int| 0 <= i < s.len() ==> is_digit(#[trigger] s[i])
}

/// The part of a number's text behind its optional plus sign.
pub open spec fn unsigned_part(s: Seq<char>) -> Seq<char> {
    if s.len() > 0 && s[0] == '+' {
        s.skip(1)
    } else {
        s
    }
}

/// The number that a text spells, if it spells one that is at most `max`: an
/// optional plus sign and then digits.
pub open spec fn parsed(s: Seq<char>, max: nat) -> Option<nat> {
    let d = unsigned_part(s);
    if spells_number(d) && digits_value(d) <= max {
        Some(digits_value(d))
    } else {
        None
    }
}

proof fn lemma_value_grows(s: Seq<char>, n: int)
    requires
        0 <= n <= s.len(),
    ensures
        digits_value(s.take(n)) <= digits_value(s),
    decreases s.len() - n,
{
    if n == s.len() {
        assert(s.take(n) =~= s);
    } else {
        assert(s.take(n + 1).drop_last() =~= s.take(n));
        lemma_value_grows(s, n + 1);
    }
}

/// The characters of a text.
pub fn chars_of(s: &str) -> (v: Vec<char>)
    ensures
        v@ == s@,
{
    let mut v: Vec<char> = Vec::new();
    let items = s.chars();
    let ghost all = vstd::std_specs::iter::IteratorSpec::remaining(&items);
    assert(all == s@);
    for c in it: items
        invariant
            it.seq() == all,
            v@ == all.take(it.index()),
    {
        v.push(c);
        assert(v@ =~= all.take(it.index() + 1));
    }
    assert(all.take(all.len() as int) =~= all);
    v
}

/// What is wrong with a text that is no number.
#[derive(Debug, Clone, Copy, PartialEq, Eq, Structural)]
pub enum NumberFault {
    Empty,
    InvalidDigit,
    TooLarge,
}

impl NumberFault {
    /// The fault in words.
    pub fn message(&self) -> (text: &'static str)
        ensures
            text@ == fault_words(*self),
    {
        match self {
            NumberFault::Empty => "cannot parse integer from empty string",
            NumberFault::InvalidDigit => "invalid digit found in string",
            NumberFault::TooLarge => "number too large to fit in target type",
        }
    }
}

/// A fault in words.
pub open spec fn fault_words(fault: NumberFault) -> Seq<char> {
    match fault {
        NumberFault::Empty => "cannot parse integer from empty string"@,
        NumberFault::InvalidDigit => "invalid digit found in string"@,
        NumberFault::TooLarge => "number too large to fit in target type"@,
    }
}

/// How many digits a text begins with.
pub open spec fn leading_digits(s: Seq<char>) -> nat
    decreases s.len(),
{
    if s.len() == 0 || !is_digit(s[0]) {
        0
    } else {
        1 + leading_digits(s.skip(1))
    }
}

/// What is wrong with a text that is no number of at most `max`. It is read from
/// the front: where the digits it begins with are too many already, what stands
/// behind them is not looked at.
pub open spec fn number_fault(s: Seq<char>, max: nat) -> NumberFault {
    let d = unsigned_part(s);
    if s.len() == 0 {
        NumberFault::Empty
    } else if digits_value(d.take(leading_digits(d) as int)) > max {
        NumberFault::TooLarge
    } else {
        NumberFault::InvalidDigit
    }
}

/// A text whose first `n` characters are digits begins with as many at least,
/// and with no more if the next is none.
proof fn lemma_leading_digits(s: Seq<char>, n: int)
    requires
        0 <= n <= s.len(),
        forall|i: int| 0 <= i < n ==> is_digit(#[trigger] s[i]),
    ensures
        n <= leading_digits(s) <= s.len(),
        n < s.len() && !is_digit(s[n]) ==> leading_digits(s) == n,
    decreases s.len(),
{
    if s.len() > 0 && is_digit(s[0]) {
        let rest = s.skip(1);
        let m = if n == 0 {
            0
        } else {
            n - 1
        };
        assert forall|i: int| 0 <= i < m implies is_digit(#[trigger] rest[i]) by {
            assert(rest[i] == s[i + 1]);
        }
        if n > 0 && n < s.len() {
            assert(rest[n - 1] == s[n]);
        }
        lemma_leading_digits(rest, m);
    }
}

/// Reads a number that is at most `max` out of a text, or says what is wrong
/// with it.
pub fn read_number(text: &str, max: u64) -> (r: Result<u64, NumberFault>)
    ensures
        match r {
            Ok(x) => parsed(text@, max as nat) == Some(x as nat),
            Err(fault) => parsed(text@, max as nat) is None && fault == number_fault(
                text@,
                max as nat,
            ),
        },
{
    let s = chars_of(text);
    if s.len() == 0 {
        return Err(NumberFault::Empty);
    }
    let start: usize = if s[0] == '+' {
        1
    } else {
        0
    };
    let ghost d = unsigned_part(s@);
    assert(d =~= s@.skip(start as int));
    if start == s.len() {
        assert(d.take(0) =~= Seq::<char>::empty());
        return Err(NumberFault::InvalidDigit);
    }
    let mut x: u64 = 0;
    let mut i: usize = start;
    assert(d.take(0) =~= Seq::<char>::empty());
    while i < s.len()
        invariant
            start <= i <= s@.len(),
            s@.len() > 0,
            s@ == text@,
            d == s@.skip(start as int),
            d == unsigned_part(s@),
            forall|j: int| 0 <= j < i - start ==> is_digit(#[trigger] d[j]),
            x as nat == digits_value(d.take(i - start)),
            x <= max,
        decreases s@.len() - i,
    {
        let c: char = s[i];
        let ghost n = i - start;
        assert(d[n] == c);
        if c < '0' || c > '9' {
            proof {
                lemma_leading_digits(d, n);
            }
            return Err(NumberFault::InvalidDigit);
        }
        let digit: u64 = (c as u32 - 48) as u64;
        proof {
            assert(d.take(n + 1).drop_last() =~= d.take(n));
            assert(digits_value(d.take(n + 1)) == 10 * x + digit);
            lemma_value_grows(d, n + 1);
            lemma_leading_digits(d, n + 1);
            let whole = d.take(leading_digits(d) as int);
            assert(whole.take(n + 1) =~= d.take(n + 1));
            lemma_value_grows(whole, n + 1);
        }
        if x > max / 10 || x * 10 > max || max - x * 10 < digit {
            return Err(NumberFault::TooLarge);
        }
        x = x * 10 + digit;
        i += 1;
    }
    assert(d.take(i - start) =~= d);
    Ok(x)
}

/// Reads a number that is at most `max` out of a text.
pub fn parse(s: &str, max: u64) -> (r: Option<u64>)
    ensures
        match (r, parsed(s@, max as nat)) {
            (Some(x), Some(want)) => x as nat == want,
            (None, None) => true,
            _ => false,
        },
{
    match read_number(s, max) {
        Ok(x) => Some(x),
        Err(_) => None,
    }
}

/// A number's decimal form is digits and spells that number.
pub proof fn lemma_decimal(x: nat)
    ensures
        decimal(x).len() > 0,
        all_digits(decimal(x)),
        spells_number(as_chars(decimal(x))),
        digits_value(as_chars(decimal(x))) == x,
    decreases x,
{
    let s = decimal(x);
    let chars = as_chars(s);
    assert(chars.last() == s.last() as char);
    assert(chars.last() as nat == 48 + x % 10);
    if x < 10 {
        assert(chars.drop_last() =~= Seq::<char>::empty());
        assert(digits_value(Seq::<char>::empty()) == 0);
        assert(chars.len() == 1);
    } else {
        lemma_decimal(x / 10);
        assert(chars.drop_last() =~= as_chars(decimal(x / 10)));
        assert forall|i: int| 0 <= i < s.len() implies 48 <= #[trigger] s[i] <= 57 by {
            if i < s.len() - 1 {
                assert(s[i] == decimal(x / 10)[i]);
            }
        }
        assert forall|i: int| 0 <= i < chars.len() implies is_digit(#[trigger] chars[i]) by {
            assert(48 <= s[i] <= 57);
        }
    }
}

/// Reading a number's decimal form gives the number.
pub proof fn law_decimal_round_trip(x: nat, max: nat)
    requires
        x <= max,
    ensures
        parsed(as_chars(decimal(x)), max) == Some(x),
{
    lemma_decimal(x);
    assert(is_digit(as_chars(decimal(x))[0]));
}

/// Digits spell the same number as bytes and as characters.
pub proof fn lemma_number_of_chars(s: Seq<u8>)
    requires
        all_digits(s),
    ensures
        digits_value(as_chars(s)) == number(s),
    decreases s.len(),
{
    let chars = as_chars(s);
    if s.len() > 0 {
        assert(48 <= s[s.len() - 1] <= 57);
        assert(chars.last() as nat == s.last());
        assert(chars.drop_last() =~= as_chars(s.drop_last()));
        assert(all_digits(s.drop_last())) by {
            assert forall|i: int| 0 <= i < s.len() - 1 implies 48 <= #[trigger] s.drop_last()[i]
                <= 57 by {
                assert(48 <= s[i] <= 57);
            }
        }
        lemma_number_of_chars(s.drop_last());
    }
}

/// Unicode's white space.
pub open spec fn is_space(c: char) -> bool {
    let n = c as u32;
    ||| 0x9 <= n <= 0xd
    ||| n == 0x20
    ||| n == 0x85
    ||| n == 0xa0
    ||| n == 0x1680
    ||| 0x2000 <= n <= 0x200a
    ||| n == 0x2028
    ||| n == 0x2029
    ||| n == 0x202f
    ||| n == 0x205f
    ||| n == 0x3000
}

pub fn space(c: char) -> (r: bool)
    ensures
        r == is_space(c),
{
    let n: u32 = c as u32;
    (0x9 <= n && n <= 0xd) || n == 0x20 || n == 0x85 || n == 0xa0 || n == 0x1680 || (0x2000 <= n
        && n <= 0x200a) || n == 0x2028 || n == 0x2029 || n == 0x202f || n == 0x205f || n == 0x3000
}

/// A text without the white space at its ends.
pub open spec fn trimmed(s: Seq<char>) -> Seq<char>
    decreases s.len(),
{
    if s.len() == 0 {
        s
    } else if is_space(s[0]) {
        trimmed(s.skip(1))
    } else if is_space(s.last()) {
        trimmed(s.drop_last())
    } else {
        s
    }
}

/// Takes the white space off the ends of a text.
pub fn trim(text: &str) -> (out: &str)
    ensures
        out@ == trimmed(text@),
{
    let s = chars_of(text);
    let mut from: usize = 0;
    let mut to: usize = s.len();
    assert(s@.subrange(0, s@.len() as int) =~= s@);
    while from < to && (space(s[from]) || space(s[to - 1]))
        invariant
            from <= to <= s@.len(),
            trimmed(s@) == trimmed(s@.subrange(from as int, to as int)),
        decreases to - from,
    {
        let ghost cur = s@.subrange(from as int, to as int);
        if space(s[from]) {
            assert(cur.skip(1) =~= s@.subrange(from + 1, to as int));
            from += 1;
        } else {
            assert(cur.drop_last() =~= s@.subrange(from as int, to - 1));
            to -= 1;
        }
    }
    text.substring_char(from, to)
}

/// How many characters stand before the first white space.
pub open spec fn word_len(s: Seq<char>) -> nat
    decreases s.len(),
{
    if s.len() == 0 || is_space(s[0]) {
        0
    } else {
        1 + word_len(s.skip(1))
    }
}

pub proof fn lemma_word_len(s: Seq<char>)
    ensures
        word_len(s) <= s.len(),
    decreases s.len(),
{
    if s.len() > 0 {
        lemma_word_len(s.skip(1));
    }
}

/// The words of a text: its longest parts without white space, in order.
pub open spec fn words(s: Seq<char>) -> Seq<Seq<char>>
    decreases s.len(),
{
    if s.len() == 0 {
        Seq::empty()
    } else if is_space(s[0]) {
        words(s.skip(1))
    } else {
        proof {
            lemma_word_len(s);
        }
        seq![s.take(word_len(s) as int)] + words(s.skip(word_len(s) as int))
    }
}

/// Texts as mathematical values.
pub open spec fn texts_view(texts: Seq<&str>) -> Seq<Seq<char>> {
    texts.map_values(|t: &str| t@)
}

/// Takes a text apart into words.
pub fn split_words(text: &str) -> (out: Vec<&str>)
    ensures
        texts_view(out@) == words(text@),
{
    let s = chars_of(text);
    let mut out: Vec<&str> = Vec::new();
    let mut at: usize = 0;
    assert(s@.skip(0) =~= s@);
    assert(texts_view(out@) + words(s@) =~= words(s@));
    while at < s.len()
        invariant
            at <= s@.len(),
            s@ == text@,
            texts_view(out@) + words(s@.skip(at as int)) == words(s@),
        decreases s@.len() - at,
    {
        let ghost rest = s@.skip(at as int);
        if space(s[at]) {
            assert(rest.skip(1) =~= s@.skip(at + 1));
            at += 1;
        } else {
            let mut end: usize = at;
            assert(rest.skip(0) =~= rest);
            while end < s.len() && !space(s[end])
                invariant
                    at <= end <= s@.len(),
                    rest == s@.skip(at as int),
                    word_len(rest) == (end - at) + word_len(rest.skip(end - at)),
                decreases s@.len() - end,
            {
                assert(rest.skip(end - at).skip(1) =~= rest.skip(end - at + 1));
                end += 1;
            }
            let word = text.substring_char(at, end);
            let ghost before = texts_view(out@);
            out.push(word);
            proof {
                assert(word_len(rest) == end - at);
                assert(word@ =~= rest.take(end - at));
                assert(rest.skip(end - at) =~= s@.skip(end as int));
                assert(texts_view(out@) =~= before.push(word@));
                assert(before + (seq![word@] + words(s@.skip(end as int))) =~= before.push(word@)
                    + words(s@.skip(end as int)));
                // The first character is no white space, so the word has one.
                assert(end > at) by {
                    assert(word_len(rest) >= 1);
                }
            }
            at = end;
        }
    }
    assert(texts_view(out@) + words(s@.skip(at as int)) =~= texts_view(out@)) by {
        assert(s@.skip(at as int).len() == 0);
    }
    out
}

/// One text behind another.
pub fn join_text(a: &str, b: &str) -> (s: String)
    ensures
        s@ == a@ + b@,
{
    let mut s = a.to_owned();
    s.append(b);
    s
}

/// Only a number is read as one: after at most one plus sign there are digits and
/// nothing else, at least one, and the number is no larger than it may be. A digit
/// behind a number makes it ten times as large and adds the digit.
pub proof fn law_only_numbers_are_read(s: Seq<char>, max: nat, i: int, digit: char)
    ensures
        parsed(s, max) matches Some(x) ==> x <= max,
        s.len() == 0 ==> parsed(s, max) is None,
        0 <= i < s.len() && !('0' <= s[i] <= '9') && !(i == 0 && s[i] == '+') ==> parsed(s, max)
            is None,
        s.len() == 1 && s[0] == '+' ==> parsed(s, max) is None,
        parsed(s, max) matches Some(x) && '0' <= digit <= '9' ==> parsed(s.push(digit), max)
            == if 10 * parsed(s, max)->0 + (digit as nat - 48) <= max {
            Some((10 * parsed(s, max)->0 + (digit as nat - 48)) as nat)
        } else {
            None
        },
        s.len() == 1 && '0' <= s[0] <= '9' && max >= 9 ==> parsed(s, max) == Some(
            (s[0] as nat - 48) as nat,
        ),
{
    let d = unsigned_part(s);
    if 0 <= i < s.len() && !is_digit(s[i]) && !(i == 0 && s[i] == '+') {
        if s[0] == '+' {
            assert(d[i - 1] == s[i]);
        } else {
            assert(d[i] == s[i]);
        }
        assert(!spells_number(d));
    }
    if s.len() == 1 {
        reveal_with_fuel(digits_value, 2);
        if is_digit(s[0]) {
            assert(s.drop_last() =~= Seq::<char>::empty());
            assert(spells_number(s));
        }
    }
    if parsed(s, max) is Some && is_digit(digit) {
        let longer = unsigned_part(s.push(digit));
        assert(longer =~= d.push(digit));
        assert(longer.drop_last() =~= d);
        assert(spells_number(longer)) by {
            assert forall|k: int| 0 <= k < longer.len() implies is_digit(#[trigger] longer[k]) by {
                if k < d.len() {
                    assert(longer[k] == d[k]);
                }
            }
        }
    }
}

/// Trimming takes white space off the ends and nothing else: what is left is a
/// part of the text, everything before and behind it is white space, and it
/// neither begins nor ends with any.
pub proof fn law_trimming_takes_white_space_only(s: Seq<char>) -> (from: int)
    ensures
        0 <= from <= from + trimmed(s).len() <= s.len(),
        trimmed(s) == s.subrange(from, from + trimmed(s).len()),
        forall|i: int|
            0 <= i < s.len() && !(from <= i < from + trimmed(s).len()) ==> is_space(#[trigger] s[i]),
        trimmed(s).len() > 0 ==> !is_space(trimmed(s)[0]) && !is_space(trimmed(s).last()),
        is_space(' '),
        is_space('\n'),
        !is_space('a'),
    decreases s.len(),
{
    if s.len() == 0 {
        assert(s.subrange(0, 0) =~= s);
        0
    } else if is_space(s[0]) {
        let rest = s.skip(1);
        let at = law_trimming_takes_white_space_only(rest);
        let n = trimmed(s).len() as int;
        assert(rest.subrange(at, at + n) =~= s.subrange(at + 1, at + 1 + n));
        assert forall|i: int| 0 <= i < s.len() && !(at + 1 <= i < at + 1 + n) implies is_space(
            #[trigger] s[i],
        ) by {
            if i > 0 {
                assert(rest[i - 1] == s[i]);
            }
        }
        at + 1
    } else if is_space(s.last()) {
        let rest = s.drop_last();
        let at = law_trimming_takes_white_space_only(rest);
        let n = trimmed(s).len() as int;
        assert(rest.subrange(at, at + n) =~= s.subrange(at, at + n));
        assert forall|i: int| 0 <= i < s.len() && !(at <= i < at + n) implies is_space(
            #[trigger] s[i],
        ) by {
            if i < rest.len() {
                assert(rest[i] == s[i]);
            }
        }
        at
    } else {
        assert(s.subrange(0, s.len() as int) =~= s);
        0
    }
}

/// A number is read exactly where the text spells one within bounds, and what is
/// written is read again; the reason for a refusal is that the text is empty,
/// too large, or no number.
pub proof fn law_a_number_is_read(
    text: &str,
    max: u64,
    r: Result<u64, NumberFault>,
    p: Option<u64>,
    x: u64,
    written: String,
)
    requires
        call_ensures(read_number, (text, max), r),
        call_ensures(parse, (text, max), p),
        call_ensures(decimal_text, (x,), written),
    ensures
        r matches Ok(y) ==> parsed(text@, max as nat) == Some(y as nat) && p == Some(y),
        r is Err ==> parsed(text@, max as nat) is None && p is None,
        text@ == written@ && x <= max ==> r == Ok::<_, NumberFault>(x),
        text@.len() == 0 ==> r == Err::<u64, _>(NumberFault::Empty),
        text@.len() > 0 ==> r != Err::<u64, _>(NumberFault::Empty),
{
    if x <= max {
        law_decimal_round_trip(x as nat, max as nat);
    }
    law_only_numbers_are_read(text@, max as nat, 0, '0');
}

/// The words of a text are what stands between white space: each is made of the
/// text's own characters, with no white space in it; a text of white space has
/// none, and a text without any is one word.
pub proof fn law_words_are_what_stands_between_spaces(text: Seq<char>, k: int, i: int)
    ensures
        0 <= k < words(text).len() ==> words(text)[k].len() > 0,
        0 <= k < words(text).len() && 0 <= i < words(text)[k].len() ==> !is_space(words(text)[k][i])
            && text.contains(words(text)[k][i]),
        (forall|j: int| 0 <= j < text.len() ==> is_space(#[trigger] text[j])) ==> words(text).len()
            == 0,
        text.len() > 0 && (forall|j: int| 0 <= j < text.len() ==> !is_space(#[trigger] text[j]))
            ==> words(text) == seq![text],
    decreases text.len(),
{
    if text.len() > 0 {
        if is_space(text[0]) {
            let rest = text.skip(1);
            law_words_are_what_stands_between_spaces(rest, k, i);
            if 0 <= k < words(text).len() && 0 <= i < words(text)[k].len() {
                lemma_skip_contains(text, 1, words(text)[k][i]);
            }
            assert forall|j: int| 0 <= j < rest.len() implies #[trigger] rest[j] == text[j + 1] by {}
            if forall|j: int| 0 <= j < text.len() ==> is_space(#[trigger] text[j]) {
                assert forall|j: int| 0 <= j < rest.len() implies is_space(#[trigger] rest[j]) by {
                    assert(is_space(text[j + 1]));
                }
            }
        } else {
            let n = word_len(text) as int;
            lemma_word_len(text);
            lemma_word_is_solid(text, i);
            let rest = text.skip(n);
            law_words_are_what_stands_between_spaces(rest, k - 1, i);
            if k == 0 && 0 <= i < n {
                assert(text.take(n)[i] == text[i]);
            }
            if 0 < k < words(text).len() && 0 <= i < words(text)[k].len() {
                lemma_skip_contains(text, n, words(text)[k][i]);
            }
            if forall|j: int| 0 <= j < text.len() ==> !is_space(#[trigger] text[j]) {
                lemma_solid_text(text);
                assert(text.take(n) =~= text);
                assert(rest.len() == 0);
                assert(words(text) =~= seq![text]);
            }
        }
    }
}

/// What a later part holds the whole holds.
proof fn lemma_skip_contains(text: Seq<char>, n: int, c: char)
    requires
        0 <= n <= text.len(),
    ensures
        text.skip(n).contains(c) ==> text.contains(c),
{
    if text.skip(n).contains(c) {
        let j = choose|j: int| 0 <= j < text.skip(n).len() && text.skip(n)[j] == c;
        assert(text[j + n] == c);
    }
}

/// No white space stands in the first word.
proof fn lemma_word_is_solid(text: Seq<char>, i: int)
    ensures
        0 <= i < word_len(text) ==> i < text.len() && !is_space(text[i]),
    decreases text.len(),
{
    if text.len() > 0 && !is_space(text[0]) && 0 < i < word_len(text) {
        lemma_word_is_solid(text.skip(1), i - 1);
    }
}

/// A text without white space is one word.
proof fn lemma_solid_text(text: Seq<char>)
    requires
        forall|j: int| 0 <= j < text.len() ==> !is_space(#[trigger] text[j]),
    ensures
        word_len(text) == text.len(),
    decreases text.len(),
{
    if text.len() > 0 {
        let rest = text.skip(1);
        assert forall|j: int| 0 <= j < rest.len() implies !is_space(#[trigger] rest[j]) by {
            assert(!is_space(text[j + 1]));
        }
        lemma_solid_text(rest);
        assert(!is_space(text[0]));
    }
}

/// Texts are trimmed, split and joined as the words say.
pub proof fn law_texts_are_cut_and_joined(
    text: &str,
    other: &str,
    cut: &str,
    parts: Vec<&str>,
    joined: String,
    i: int,
)
    requires
        call_ensures(trim, (text,), cut),
        call_ensures(split_words, (text,), parts),
        call_ensures(join_text, (text, other), joined),
    ensures
        cut@ == trimmed(text@),
        parts@.len() == words(text@).len(),
        0 <= i < parts@.len() ==> parts@[i]@ == words(text@)[i],
        joined@ == text@ + other@,
{
    assert(texts_view(parts@).len() == parts@.len());
    if 0 <= i < parts@.len() {
        assert(texts_view(parts@)[i] == parts@[i]@);
    }
}

/// Numbers of a fixed width are spelled digit by digit, the last digit last, with
/// zeros in front; so they are ordered as their spellings are.
pub proof fn law_fixed_width_numbers(x: nat, width: nat)
    requires
        width > 0,
    ensures
        digits(x, width).len() == width,
        digits(x, width).last() == 48 + x % 10,
        width > 1 ==> digits(x, width)[width - 2] == 48 + (x / 10) % 10,
        width > 1 && x < 10 ==> digits(x, width)[0] == 48,
{
    lemma_digits(x, width);
    if width > 1 {
        let less = (width - 1) as nat;
        lemma_digits(x / 10, less);
        assert(digits(x, width)[width - 2] == digits(x / 10, less).last());
        if x < 10 {
            lemma_zeros(less);
            assert(digits(x, width)[0] == digits(0, less)[0]);
        }
    }
}

/// Zero is spelled with zeros.
proof fn lemma_zeros(width: nat)
    ensures
        width > 0 ==> digits(0, width).len() == width && digits(0, width)[0] == 48,
    decreases width,
{
    if width > 0 {
        lemma_digits(0, width);
        if width > 1 {
            lemma_zeros((width - 1) as nat);
        }
    }
}

/// White space parts words: the words of two texts with white space between them
/// are those of the first and then those of the second.
pub proof fn law_white_space_parts_words(a: Seq<char>, c: char, b: Seq<char>)
    requires
        is_space(c),
    ensures
        words(a.push(c) + b) == words(a) + words(b),
    decreases a.len(),
{
    let whole = a.push(c) + b;
    if a.len() == 0 {
        assert(whole.skip(1) =~= b);
        assert(words(a) + words(b) =~= words(b));
    } else if is_space(a[0]) {
        assert(whole.skip(1) =~= a.skip(1).push(c) + b);
        law_white_space_parts_words(a.skip(1), c, b);
    } else {
        let n = word_len(a) as int;
        lemma_word_len(a);
        lemma_word_ends(a, c, b);
        assert(whole.take(n) =~= a.take(n));
        assert(whole.skip(n) =~= a.skip(n).push(c) + b);
        law_white_space_parts_words(a.skip(n), c, b);
        lemma_word_len(whole);
        assert(words(whole) =~= words(a) + words(b));
    }
}

/// The first word of a text ends at white space behind the text.
proof fn lemma_word_ends(a: Seq<char>, c: char, b: Seq<char>)
    requires
        is_space(c),
    ensures
        word_len(a.push(c) + b) == word_len(a),
    decreases a.len(),
{
    let whole = a.push(c) + b;
    if a.len() > 0 && !is_space(a[0]) {
        assert(whole.skip(1) =~= a.skip(1).push(c) + b);
        lemma_word_ends(a.skip(1), c, b);
    }
}

/// Why a text is no number: it is empty; or it spells one that is too large; or
/// it holds something else.
pub proof fn law_why_a_text_is_no_number(s: Seq<char>, max: nat, more: nat)
    ensures
        number_fault(s, max) == NumberFault::Empty <==> s.len() == 0,
        parsed(s, max) is None && parsed(s, more) is Some ==> number_fault(s, max)
            == NumberFault::TooLarge,
        s.len() == 1 && !is_digit(s[0]) ==> number_fault(s, max) == NumberFault::InvalidDigit,
{
    let d = unsigned_part(s);
    if parsed(s, max) is None && parsed(s, more) is Some {
        lemma_leading_digits(d, d.len() as int);
        assert(d.take(d.len() as int) =~= d);
    }
    if s.len() == 1 && !is_digit(s[0]) {
        if d.len() > 0 {
            lemma_leading_digits(d, 0);
        }
        assert(d.take(0) =~= Seq::<char>::empty());
    }
}

} // verus!
