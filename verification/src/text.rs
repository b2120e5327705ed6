//! Comparing texts.

use vstd::prelude::*;
use vstd::string::StrSliceExecFns;

verus! {

/// Whether two texts are the same, character for character.
pub fn same_text(left: &str, right: &str) -> (result: bool)
    ensures
        result == (left@ == right@),
{
    let length = left.unicode_len();
    if length != right.unicode_len() {
        return false;
    }
    let mut index: usize = 0;
    while index < length
        invariant
            index <= length,
            length == left@.len(),
            length == right@.len(),
            forall|i: int| 0 <= i < index ==> left@[i] == right@[i],
        decreases length - index,
    {
        if left.get_char(index) != right.get_char(index) {
            return false;
        }
        index += 1;
    }
    assert(left@ =~= right@);
    true
}

} // verus!

verus! {

/// Whether one text comes before another: at the first character where they
/// differ, or by being a proper prefix of it.
pub open spec fn text_less(left: Seq<char>, right: Seq<char>) -> bool
    decreases left.len(),
{
    if right.len() == 0 {
        false
    } else if left.len() == 0 {
        true
    } else if left[0] != right[0] {
        (left[0] as int) < (right[0] as int)
    } else {
        text_less(left.drop_first(), right.drop_first())
    }
}

/// The order of texts is strict and total, and it is transitive.
pub proof fn lemma_text_order(a: Seq<char>, b: Seq<char>, c: Seq<char>)
    ensures
        !text_less(a, a),
        a != b ==> text_less(a, b) || text_less(b, a),
        text_less(a, b) ==> !text_less(b, a),
        text_less(a, b) && text_less(b, c) ==> text_less(a, c),
    decreases a.len(),
{
    if a.len() > 0 && b.len() > 0 && c.len() > 0 {
        lemma_text_order(a.drop_first(), b.drop_first(), c.drop_first());
    } else if a.len() > 0 && b.len() > 0 {
        lemma_text_order(a.drop_first(), b.drop_first(), a.drop_first());
    } else if a.len() > 0 {
        lemma_text_order(a.drop_first(), a.drop_first(), a.drop_first());
    }
    lemma_text_total(a, b);
}

proof fn lemma_text_total(a: Seq<char>, b: Seq<char>)
    ensures
        a != b ==> text_less(a, b) || text_less(b, a),
    decreases a.len(),
{
    if a != b {
        if a.len() == 0 && b.len() == 0 {
            assert(a =~= b);
        } else if a.len() > 0 && b.len() > 0 {
            if a[0] == b[0] {
                assert(a.drop_first() != b.drop_first()) by {
                    if a.drop_first() == b.drop_first() {
                        assert(a =~= seq![a[0]] + a.drop_first());
                        assert(b =~= seq![b[0]] + b.drop_first());
                    }
                }
                lemma_text_total(a.drop_first(), b.drop_first());
            } else {
                assert((a[0] as int) != (b[0] as int));
            }
        }
    }
}

/// Whether `left` comes before `right`.
pub fn precedes(left: &str, right: &str) -> (result: bool)
    ensures
        result == text_less(left@, right@),
{
    let left_length = left.unicode_len();
    let right_length = right.unicode_len();
    let mut index: usize = 0;
    assert(left@.subrange(0, left@.len() as int) =~= left@);
    assert(right@.subrange(0, right@.len() as int) =~= right@);
    while index < left_length && index < right_length
        invariant
            index <= left_length,
            index <= right_length,
            left_length == left@.len(),
            right_length == right@.len(),
            text_less(left@, right@) == text_less(left@.subrange(index as int, left@.len() as int), right@.subrange(
                index as int,
                right@.len() as int,
            )),
        decreases left_length - index,
    {
        let a = left.get_char(index);
        let b = right.get_char(index);
        let ghost rest_left = left@.subrange(index as int, left@.len() as int);
        let ghost rest_right = right@.subrange(index as int, right@.len() as int);
        assert(rest_left[0] == a && rest_right[0] == b);
        if a != b {
            return (a as u32) < (b as u32);
        }
        assert(rest_left.drop_first() =~= left@.subrange(index + 1, left@.len() as int));
        assert(rest_right.drop_first() =~= right@.subrange(index + 1, right@.len() as int));
        index += 1;
    }
    index < right_length
}

} // verus!

verus! {

/// `String::push`: the text afterwards is the text before with the
/// character appended at its end.
#[verifier::external_body]
pub(crate) fn push_char(text: &mut String, character: char)
    ensures
        final(text)@ == old(text)@.push(character),
{
    text.push(character);
}

/// The decimal digits of a number, most significant first, without
/// leading zeros; zero is `0`.
pub open spec fn decimal(value: nat) -> Seq<char>
    decreases value,
{
    if value < 10 {
        seq![digit_char(value)]
    } else {
        decimal(value / 10).push(digit_char(value % 10))
    }
}

/// The character of a decimal digit.
pub open spec fn digit_char(digit: nat) -> char {
    ((digit + 48) as u8) as char
}

/// The number in decimal.
pub fn decimal_text(value: u64) -> (result: String)
    ensures
        result@ == decimal(value as nat),
{
    let mut digits: Vec<char> = Vec::new();
    let mut rest = value;
    loop
        invariant_except_break
            decimal(value as nat) == decimal(rest as nat) + digits@.reverse(),
        ensures
            decimal(value as nat) == digits@.reverse(),
        decreases rest,
    {
        let digit = (rest % 10) as u8;
        let ghost before = digits@;
        digits.push((digit + 48) as char);
        assert(digits@.reverse() =~= seq![digit_char((rest % 10) as nat)] + before.reverse());
        if rest < 10 {
            break;
        }
        rest = rest / 10;
    }
    let mut result = String::new();
    let mut index = digits.len();
    while index > 0
        invariant
            index <= digits@.len(),
            result@ == digits@.reverse().subrange(0, digits@.len() - index),
        decreases index,
    {
        index -= 1;
        push_char(&mut result, digits[index]);
        assert(result@ =~= digits@.reverse().subrange(0, digits@.len() - index));
    }
    assert(digits@.reverse().subrange(0, digits@.len() as int) =~= digits@.reverse());
    result
}

} // verus!

verus! {

/// Whether `pattern` occurs in `text` starting at `at`.
pub open spec fn occurs_at(text: Seq<char>, pattern: Seq<char>, at: int) -> bool {
    0 <= at && at + pattern.len() <= text.len() && text.subrange(at, at + pattern.len()) == pattern
}

/// Whether `pattern` occurs in `text` starting at `at`.
pub fn starts_at(text: &str, pattern: &str, at: usize) -> (result: bool)
    ensures
        result == occurs_at(text@, pattern@, at as int),
{
    let length = text.unicode_len();
    let wanted = pattern.unicode_len();
    if at > length || wanted > length - at {
        return false;
    }
    let mut index: usize = 0;
    while index < wanted
        invariant
            index <= wanted,
            length == text@.len(),
            wanted == pattern@.len(),
            at + wanted <= length,
            forall|j: int| 0 <= j < index ==> text@[at + j] == pattern@[j],
        decreases wanted - index,
    {
        if text.get_char(at + index) != pattern.get_char(index) {
            assert(text@.subrange(at as int, at + wanted)[index as int] != pattern@[index as int]);
            return false;
        }
        index += 1;
    }
    assert(text@.subrange(at as int, at + wanted) =~= pattern@);
    true
}

/// Whether `pattern` occurs anywhere in `text`.
pub fn contains_text(text: &str, pattern: &str) -> (result: bool)
    ensures
        result == exists|at: int| occurs_at(text@, pattern@, at),
{
    let length = text.unicode_len();
    let mut at: usize = 0;
    while at < length
        invariant
            at <= length,
            length == text@.len(),
            forall|j: int| 0 <= j < at ==> !occurs_at(text@, pattern@, j),
        decreases length - at,
    {
        if starts_at(text, pattern, at) {
            return true;
        }
        at += 1;
    }
    if starts_at(text, pattern, length) {
        return true;
    }
    assert forall|j: int| !occurs_at(text@, pattern@, j) by {
        if j > length as int {
            assert(j + pattern@.len() > text@.len());
        }
    }
    false
}

} // verus!

verus! {

/// The texts of strings.
pub open spec fn texts(strings: Seq<String>) -> Seq<Seq<char>>
    decreases strings.len(),
{
    if strings.len() == 0 {
        Seq::empty()
    } else {
        texts(strings.drop_last()).push(strings.last()@)
    }
}

/// The number decimal digits stand for, the first the most significant.
pub open spec fn digits_number(digits: Seq<char>) -> nat
    decreases digits.len(),
{
    if digits.len() == 0 {
        0
    } else {
        digits_number(digits.drop_last()) * 10 + ((digits.last() as nat) - 48) as nat
    }
}

/// Whether every character is a decimal digit.
pub open spec fn all_decimal_digits(text: Seq<char>) -> bool {
    forall|i: int| 0 <= i < text.len() ==> '0' <= #[trigger] text[i] <= '9'
}

/// A text without the `+` it may begin with.
pub open spec fn unsigned_digits(text: Seq<char>) -> Seq<char> {
    if text.len() > 0 && text[0] == '+' {
        text.drop_first()
    } else {
        text
    }
}

/// The number a text of decimal digits stands for, with an optional `+`
/// before them, when it is at most `usize::MAX`.
pub open spec fn parsed_index(text: Seq<char>) -> Option<nat> {
    let digits = unsigned_digits(text);
    if digits.len() > 0 && all_decimal_digits(digits) && digits_number(digits) <= usize::MAX {
        Some(digits_number(digits))
    } else {
        None
    }
}

/// More digits stand for no smaller a number.
proof fn lemma_digits_grow(digits: Seq<char>, count: int)
    requires
        all_decimal_digits(digits),
        0 <= count <= digits.len(),
    ensures
        digits_number(digits.take(count)) <= digits_number(digits),
    decreases digits.len(),
{
    if count < digits.len() {
        assert(digits.drop_last().take(count) =~= digits.take(count));
        lemma_digits_grow(digits.drop_last(), count);
    } else {
        assert(digits.take(count) =~= digits);
    }
}

/// The number a text of decimal digits stands for, with an optional `+`
/// before them, as `str::parse` reads an unsigned integer; nothing for any
/// other text or for a number past `usize::MAX`.
pub fn parse_index(text: &str) -> (result: Option<usize>)
    ensures
        match result {
            Some(value) => parsed_index(text@) == Some(value as nat),
            None => parsed_index(text@) is None,
        },
{
    let length = text.unicode_len();
    let mut index: usize = 0;
    if length > 0 && text.get_char(0) == '+' {
        index = 1;
    }
    let start = index;
    let ghost digits = unsigned_digits(text@);
    assert(digits =~= text@.subrange(start as int, length as int));
    if index >= length {
        return None;
    }
    let mut value: usize = 0;
    while index < length
        invariant
            start <= index <= length,
            length == text@.len(),
            digits == text@.subrange(start as int, length as int),
            digits == unsigned_digits(text@),
            value as nat == digits_number(digits.take(index - start)),
            all_decimal_digits(digits.take(index - start)),
        decreases length - index,
    {
        let character = text.get_char(index);
        let ghost done = digits.take(index - start);
        assert(digits.take(index - start + 1).drop_last() =~= done);
        assert(digits[index - start] == character);
        if character < '0' || character > '9' {
            assert(!all_decimal_digits(digits));
            return None;
        }
        let digit = (character as u32 - '0' as u32) as usize;
        let next = match value.checked_mul(10) {
            Some(tens) => tens.checked_add(digit),
            None => None,
        };
        match next {
            Some(next) => {
                value = next;
            },
            None => {
                proof {
                    assert(digits_number(digits.take(index - start + 1)) > usize::MAX);
                    if all_decimal_digits(digits) {
                        lemma_digits_grow(digits, index - start + 1);
                    }
                }
                return None;
            },
        }
        index += 1;
        assert(all_decimal_digits(digits.take(index - start)));
    }
    assert(digits.take(index - start) =~= digits);
    Some(value)
}

} // verus!
