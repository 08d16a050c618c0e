//! Small helpers for building and reading text.

use vstd::prelude::*;
use vstd::string::StrSliceExecFns;

verus! {

/// `String::push` of the standard library: the character is appended to the
/// end of the string, and nothing else changes.
pub assume_specification[ String::push ](s: &mut String, ch: char)
    ensures
        final(s)@ == old(s)@.push(ch),
;

/// The character of the decimal digit `d`.
pub open spec fn digit_char(d: int) -> char {
    (d + '0' as int) as u8 as char
}

/// The decimal digits of `n`, without leading zeros.
pub open spec fn decimal_text(n: u8) -> Seq<char> {
    if n >= 100 {
        seq![digit_char(n as int / 100), digit_char((n as int / 10) % 10), digit_char(n as int % 10)]
    } else if n >= 10 {
        seq![digit_char(n as int / 10), digit_char(n as int % 10)]
    } else {
        seq![digit_char(n as int)]
    }
}

/// Appends the decimal digits of `n` to `s`.
pub fn push_decimal(s: &mut String, n: u8)
    ensures
        final(s)@ == old(s)@ + decimal_text(n),
{
    let ghost before = s@;
    if n >= 100 {
        s.push((n / 100 + 48) as char);
    }
    if n >= 10 {
        s.push(((n / 10) % 10 + 48) as char);
    }
    s.push((n % 10 + 48) as char);
    proof {
        assert(s@ =~= before + decimal_text(n));
    }
}

/// The decimal digits of `n`, without leading zeros.
pub open spec fn number_text(n: nat) -> Seq<char>
    decreases n,
{
    if n < 10 {
        seq![digit_char(n as int)]
    } else {
        number_text(n / 10).push(digit_char(n as int % 10))
    }
}

/// Appends the decimal digits of `n` to `s`.
pub fn push_number(s: &mut String, n: usize)
    ensures
        final(s)@ == old(s)@ + number_text(n as nat),
    decreases n,
{
    let ghost before = s@;
    if n >= 10 {
        push_number(s, n / 10);
    }
    s.push(((n % 10) as u8 + 48) as char);
    proof {
        assert(s@ =~= before + number_text(n as nat));
    }
}

/// Appends the decimal digits of `n` to `s`.
pub fn push_u64(s: &mut String, n: u64)
    ensures
        final(s)@ == old(s)@ + number_text(n as nat),
    decreases n,
{
    let ghost before = s@;
    if n >= 10 {
        push_u64(s, n / 10);
    }
    s.push(((n % 10) as u8 + 48) as char);
    proof {
        assert(s@ =~= before + number_text(n as nat));
    }
}

/// Appends the characters of `word` to `s`.
pub fn push_text(s: &mut String, word: &str)
    ensures
        final(s)@ == old(s)@ + word@,
{
    let len = word.unicode_len();
    let mut i: usize = 0;
    proof {
        assert(s@ =~= old(s)@ + word@.take(0));
    }
    while i < len
        invariant
            i <= len,
            len == word@.len(),
            s@ == old(s)@ + word@.take(i as int),
        decreases len - i,
    {
        let ghost before = s@;
        s.push(word.get_char(i));
        proof {
            assert(s@ =~= old(s)@ + word@.take(i + 1));
        }
        i += 1;
    }
    proof {
        assert(word@.take(i as int) =~= word@);
    }
}

/// Whether two texts are the same.
pub fn same_text(a: &str, b: &str) -> (same: bool)
    ensures
        same == (a@ == b@),
{
    let len = a.unicode_len();
    if len != b.unicode_len() {
        return false;
    }
    let mut i: usize = 0;
    while i < len
        invariant
            i <= len,
            len == a@.len(),
            len == b@.len(),
            forall|j: int| 0 <= j < i ==> a@[j] == b@[j],
        decreases len - i,
    {
        if a.get_char(i) != b.get_char(i) {
            return false;
        }
        i += 1;
    }
    proof {
        assert(a@ =~= b@);
    }
    true
}

/// Whether `c` is a decimal digit.
pub open spec fn is_digit(c: char) -> bool {
    '0' <= c && c <= '9'
}

/// The value of the decimal digit `c`.
pub open spec fn digit_value(c: char) -> int {
    c as int - '0' as int
}

/// The number that the digits `s` write, read from the left.
pub open spec fn digits_value(s: Seq<char>) -> int
    decreases s.len(),
{
    if s.len() == 0 {
        0
    } else {
        10 * digits_value(s.drop_last()) + digit_value(s.last())
    }
}

/// The digits of a number: `s` without a leading plus sign.
pub open spec fn unsigned_part(s: Seq<char>) -> Seq<char> {
    if s.len() > 0 && s[0] == '+' {
        s.subrange(1, s.len() as int)
    } else {
        s
    }
}

/// The number below 256 that `s` writes in decimal digits, which a plus sign
/// may precede; none where `s` is something else.
pub open spec fn parse_u8(s: Seq<char>) -> Option<u8> {
    let digits = unsigned_part(s);
    if digits.len() > 0 && (forall|i: int| 0 <= i < digits.len() ==> is_digit(#[trigger] digits[i]))
        && digits_value(digits) <= 255 {
        Some(digits_value(digits) as u8)
    } else {
        None
    }
}

proof fn lemma_digits_value_grows(s: Seq<char>, n: int)
    requires
        0 <= n <= s.len(),
        forall|i: int| 0 <= i < s.len() ==> is_digit(#[trigger] s[i]),
    ensures
        0 <= digits_value(s.take(n)) <= digits_value(s),
    decreases s.len() - n,
{
    lemma_digits_value_nonneg(s.take(n));
    if n == s.len() {
        assert(s.take(n) =~= s);
    } else {
        lemma_digits_value_grows(s, n + 1);
        assert(s.take(n + 1).drop_last() =~= s.take(n));
    }
}

proof fn lemma_digits_value_nonneg(s: Seq<char>)
    requires
        forall|i: int| 0 <= i < s.len() ==> is_digit(#[trigger] s[i]),
    ensures
        0 <= digits_value(s),
    decreases s.len(),
{
    if s.len() > 0 {
        lemma_digits_value_nonneg(s.drop_last());
    }
}

/// Reads a number below 256 in decimal digits; a plus sign may precede them.
pub fn read_u8(text: &str) -> (value: Option<u8>)
    ensures
        value == parse_u8(text@),
{
    let len = text.unicode_len();
    let start: usize = if len > 0 && text.get_char(0) == '+' {
        1
    } else {
        0
    };
    let ghost digits = unsigned_part(text@);
    if start >= len {
        return None;
    }
    let mut value: u32 = 0;
    let mut i: usize = start;
    while i < len
        invariant
            start <= i <= len,
            len == text@.len(),
            digits == text@.subrange(start as int, len as int),
            digits == unsigned_part(text@),
            forall|j: int| 0 <= j < i - start ==> is_digit(#[trigger] digits[j]),
            value == digits_value(digits.take(i - start)),
            value <= 255,
        decreases len - i,
    {
        let c = text.get_char(i);
        proof {
            assert(digits[i - start] == c);
            assert(digits.take(i - start + 1).drop_last() =~= digits.take(i - start));
        }
        if !('0' <= c && c <= '9') {
            return None;
        }
        value = value * 10 + ((c as u32) - 48);
        if value > 255 {
            proof {
                if forall|j: int| 0 <= j < digits.len() ==> is_digit(#[trigger] digits[j]) {
                    lemma_digits_value_grows(digits, i - start + 1);
                }
            }
            return None;
        }
        i += 1;
    }
    proof {
        assert(digits.take(i - start) =~= digits);
    }
    Some(value as u8)
}

/// The texts as sequences of characters.
pub open spec fn texts_view(texts: &Vec<String>) -> Seq<Seq<char>> {
    Seq::new(texts@.len(), |i: int| texts@[i]@)
}

/// The small letter of a capital letter of the Latin alphabet; of any other
/// character, the character itself.
pub open spec fn lower(c: char) -> char {
    if 'A' <= c && c <= 'Z' {
        ((c as u8) + 32) as char
    } else {
        c
    }
}

/// The small letter of a capital letter of the Latin alphabet.
pub fn to_lower(c: char) -> (l: char)
    ensures
        l == lower(c),
{
    if 'A' <= c && c <= 'Z' {
        ((c as u8) + 32) as char
    } else {
        c
    }
}

/// Two texts are the same but for capital and small Latin letters.
pub open spec fn same_letters(a: Seq<char>, b: Seq<char>) -> bool {
    a.len() == b.len() && forall|i: int| 0 <= i < a.len() ==> lower(#[trigger] a[i]) == lower(b[i])
}

/// Whether two texts are the same but for capital and small Latin letters.
pub fn same_ignoring_case(a: &str, b: &str) -> (same: bool)
    ensures
        same == same_letters(a@, b@),
{
    let len = a.unicode_len();
    if len != b.unicode_len() {
        return false;
    }
    let mut i: usize = 0;
    while i < len
        invariant
            i <= len,
            len == a@.len(),
            len == b@.len(),
            forall|j: int| 0 <= j < i ==> lower(#[trigger] a@[j]) == lower(b@[j]),
        decreases len - i,
    {
        if to_lower(a.get_char(i)) != to_lower(b.get_char(i)) {
            return false;
        }
        i += 1;
    }
    true
}

/// All characters of `s` are decimal digits.
pub open spec fn all_digits(s: Seq<char>) -> bool {
    forall|i: int| 0 <= i < s.len() ==> is_digit(#[trigger] s[i])
}

/// Whether `s` begins with a plus or a minus sign.
pub open spec fn has_sign(s: Seq<char>) -> bool {
    s.len() > 0 && (s[0] == '+' || s[0] == '-')
}

/// The digits of a number: `s` without a leading sign.
pub open spec fn after_sign(s: Seq<char>) -> Seq<char> {
    if has_sign(s) {
        s.subrange(1, s.len() as int)
    } else {
        s
    }
}

/// The number that `s` writes: decimal digits, at least one, which a plus or
/// a minus sign may precede. None where `s` is something else, or where the
/// number does not fit in 64 bits with a sign.
pub open spec fn parse_i64(s: Seq<char>) -> Option<i64> {
    let digits = after_sign(s);
    let value = if s.len() > 0 && s[0] == '-' {
        -digits_value(digits)
    } else {
        digits_value(digits)
    };
    if digits.len() > 0 && all_digits(digits) && i64::MIN <= value <= i64::MAX {
        Some(value as i64)
    } else {
        None
    }
}

/// Reads a number in decimal digits, which a plus or a minus sign may
/// precede.
pub fn read_i64(text: &str) -> (value: Option<i64>)
    ensures
        value == parse_i64(text@),
{
    let len = text.unicode_len();
    let negative = len > 0 && text.get_char(0) == '-';
    let start: usize = if len > 0 && (text.get_char(0) == '+' || text.get_char(0) == '-') {
        1
    } else {
        0
    };
    let ghost digits = after_sign(text@);
    if start >= len {
        return None;
    }
    let mut value: u128 = 0;
    let mut i: usize = start;
    while i < len
        invariant
            start <= i <= len,
            len == text@.len(),
            digits == text@.subrange(start as int, len as int),
            digits == after_sign(text@),
            forall|j: int| 0 <= j < i - start ==> is_digit(#[trigger] digits[j]),
            value == digits_value(digits.take(i - start)),
            value <= 0x8000_0000_0000_0000,
        decreases len - i,
    {
        let c = text.get_char(i);
        proof {
            assert(digits[i - start] == c);
            assert(digits.take(i - start + 1).drop_last() =~= digits.take(i - start));
        }
        if !('0' <= c && c <= '9') {
            assert(!is_digit(digits[i - start]));
            return None;
        }
        value = value * 10 + ((c as u128) - 48);
        assert(value == digits_value(digits.take(i - start + 1)));
        if value > 0x8000_0000_0000_0000 {
            proof {
                if all_digits(digits) {
                    lemma_digits_value_grows(digits, i - start + 1);
                    assert(digits_value(digits) > 0x8000_0000_0000_0000);
                }
            }
            return None;
        }
        i += 1;
    }
    proof {
        assert(digits.take(i - start) =~= digits);
    }
    if negative {
        if value == 0x8000_0000_0000_0000 {
            Some(i64::MIN)
        } else {
            Some(-(value as i64))
        }
    } else if value == 0x8000_0000_0000_0000 {
        None
    } else {
        Some(value as i64)
    }
}

/// The words with one space between each two. An empty text before a word
/// gets no space after it.
pub open spec fn joined(words: Seq<Seq<char>>) -> Seq<char>
    decreases words.len(),
{
    if words.len() == 0 {
        Seq::empty()
    } else if joined(words.drop_last()).len() > 0 {
        joined(words.drop_last()).push(' ') + words.last()
    } else {
        words.last()
    }
}

/// The words from place `from` up to place `to`, with one space between each
/// two.
pub fn join_words(words: &Vec<String>, from: usize, to: usize) -> (text: String)
    requires
        from <= to <= words@.len(),
    ensures
        text@ == joined(texts_view(words).subrange(from as int, to as int)),
{
    let ghost all = texts_view(words);
    let mut text = String::new();
    let mut i: usize = from;
    proof {
        assert(all.subrange(from as int, from as int) =~= Seq::<Seq<char>>::empty());
    }
    while i < to
        invariant
            from <= i <= to,
            to <= words@.len(),
            all == texts_view(words),
            text@ == joined(all.subrange(from as int, i as int)),
        decreases to - i,
    {
        let ghost before = text@;
        proof {
            assert(all.subrange(from as int, i + 1).drop_last() =~= all.subrange(
                from as int,
                i as int,
            ));
            assert(all.subrange(from as int, i + 1).last() == words@[i as int]@);
        }
        if text.as_str().unicode_len() > 0 {
            text.push(' ');
        }
        push_text(&mut text, words[i].as_str());
        proof {
            if before.len() == 0 {
                assert(text@ =~= words@[i as int]@);
            }
        }
        i += 1;
    }
    text
}

} // verus!
