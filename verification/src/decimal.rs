//! Numbers written in decimal digits: reading them and writing them.

use vstd::prelude::*;
use crate::types::{Cubicage, Price};

verus! {

/// Whether `c` is one of the digits `0` to `9`.
pub open spec fn is_digit(c: char) -> bool {
    '0' <= c <= '9'
}

/// The number that the digit `c` stands for.
pub open spec fn digit_value(c: char) -> nat {
    (c as nat - '0' as nat) as nat
}

/// Whether `text` holds digits only.
pub open spec fn all_digits(text: Seq<char>) -> bool {
    forall|i: int| 0 <= i < text.len() ==> is_digit(#[trigger] text[i])
}

/// The number that the digits `digits` write, the empty text writing zero.
pub open spec fn decimal_value(digits: Seq<char>) -> nat
    decreases digits.len(),
{
    if digits.len() == 0 {
        0
    } else {
        10 * decimal_value(digits.drop_last()) + digit_value(digits.last())
    }
}

/// The digits of `text` that write an unsigned number: all of `text`, or
/// what follows a plus sign at its start.
pub open spec fn unsigned_digits(text: Seq<char>) -> Seq<char> {
    if text.len() > 0 && text[0] == '+' {
        text.drop_first()
    } else {
        text
    }
}

/// The number that `text` writes, if it writes one that is at most `limit`:
/// one digit or more, after a plus sign or without one.
pub open spec fn unsigned_value(text: Seq<char>, limit: nat) -> Option<nat> {
    let digits = unsigned_digits(text);
    if digits.len() > 0 && all_digits(digits) && decimal_value(digits) <= limit {
        Some(decimal_value(digits))
    } else {
        None
    }
}

/// The number written by the first `count + 1` digits is ten times the
/// number written by the first `count`, and the next digit.
pub proof fn lemma_decimal_value_step(digits: Seq<char>, count: int)
    requires
        0 <= count < digits.len(),
    ensures
        decimal_value(digits.take(count + 1)) == 10 * decimal_value(digits.take(count))
            + digit_value(digits[count]),
{
    assert(digits.take(count + 1).drop_last() =~= digits.take(count));
}

/// The number written by a prefix of the digits is at most the number that
/// all of them write.
pub proof fn lemma_decimal_value_prefix(digits: Seq<char>, count: int)
    requires
        0 <= count <= digits.len(),
    ensures
        decimal_value(digits.take(count)) <= decimal_value(digits),
    decreases digits.len() - count,
{
    if count == digits.len() {
        assert(digits.take(count) =~= digits);
    } else {
        lemma_decimal_value_step(digits, count);
        lemma_decimal_value_prefix(digits, count + 1);
    }
}

/// The number that the characters of `text` from `from` to `to` write, if
/// these are digits and the number is at most `limit`; an empty range writes
/// zero.
pub fn digits_value(text: &str, from: usize, to: usize, limit: u64) -> (value: Option<u64>)
    requires
        from <= to <= text@.len(),
    ensures
        value == (if all_digits(text@.subrange(from as int, to as int)) && decimal_value(
            text@.subrange(from as int, to as int),
        ) <= limit {
            Some(decimal_value(text@.subrange(from as int, to as int)) as u64)
        } else {
            None
        }),
{
    let ghost digits = text@.subrange(from as int, to as int);
    let mut value: u64 = 0;
    let mut i: usize = from;
    assert(digits.take(0) =~= Seq::empty());
    while i < to
        invariant
            from <= i <= to,
            to <= text@.len(),
            digits == text@.subrange(from as int, to as int),
            all_digits(digits.take(i - from)),
            value == decimal_value(digits.take(i - from)),
            value <= limit,
        decreases to - i,
    {
        let c = text.get_char(i);
        assert(c == digits[i - from]);
        proof {
            lemma_decimal_value_step(digits, i - from);
            lemma_decimal_value_prefix(digits, i - from + 1);
        }
        if c < '0' || c > '9' {
            assert(!is_digit(digits[i - from]));
            return None;
        }
        let digit: u64 = (c as u64) - ('0' as u64);
        if digit > limit || value > (limit - digit) / 10 {
            return None;
        }
        value = 10 * value + digit;
        assert forall|k: int| 0 <= k < i - from + 1 implies is_digit(
            #[trigger] digits.take(i - from + 1)[k],
        ) by {
            if k < i - from {
                assert(digits.take(i - from)[k] == digits[k]);
            }
        }
        i += 1;
    }
    assert(digits.take(to - from) =~= digits);
    Some(value)
}

/// The unsigned number that `text` writes, if it writes one that is at most
/// `limit`.
pub fn parse_unsigned(text: &str, limit: u64) -> (value: Option<u64>)
    ensures
        value.is_some() == unsigned_value(text@, limit as nat).is_some(),
        value.is_some() ==> value.unwrap() == unsigned_value(text@, limit as nat).unwrap(),
{
    let length = text.unicode_len();
    if length == 0 {
        return None;
    }
    let from: usize = if text.get_char(0) == '+' { 1 } else { 0 };
    if from == length {
        return None;
    }
    assert(text@.subrange(from as int, length as int) =~= unsigned_digits(text@));
    digits_value(text, from, length, limit)
}

/// Ten to the power of `places`.
pub open spec fn tens(places: nat) -> nat
    decreases places,
{
    if places == 0 {
        1
    } else {
        10 * tens((places - 1) as nat)
    }
}

/// The place of the first comma of `text`, or its length where it has none.
pub open spec fn comma_position(text: Seq<char>) -> int
    decreases text.len(),
{
    if text.len() == 0 {
        0
    } else if text[0] == ',' {
        0
    } else {
        1 + comma_position(text.drop_first())
    }
}

/// What stands before the first comma of `text`: all of it where it has no
/// comma.
pub open spec fn whole_part(text: Seq<char>) -> Seq<char> {
    text.take(comma_position(text))
}

/// What stands after the first comma of `text`, if it has a comma.
pub open spec fn fraction_part(text: Seq<char>) -> Option<Seq<char>> {
    if comma_position(text) < text.len() {
        Some(text.skip(comma_position(text) + 1))
    } else {
        None
    }
}

/// The text `text` without its full stops.
pub open spec fn without_dots(text: Seq<char>) -> Seq<char>
    decreases text.len(),
{
    if text.len() == 0 {
        Seq::empty()
    } else if text.last() == '.' {
        without_dots(text.drop_last())
    } else {
        without_dots(text.drop_last()).push(text.last())
    }
}

/// The fraction that the digits `digits` write after a decimal comma, in
/// units of the last of `places` places; digits beyond these are dropped.
pub open spec fn fraction_value(digits: Seq<char>, places: nat) -> nat {
    let kept = if digits.len() < places {
        digits.len()
    } else {
        places
    };
    decimal_value(digits.take(kept as int)) * tens((places - kept) as nat)
}

/// The number with the whole part `whole` and the fraction `fraction`, in
/// units of the last of `places` decimal places, if both parts are digits,
/// one or more each.
pub open spec fn scaled_value(whole: Seq<char>, fraction: Option<Seq<char>>, places: nat) -> Option<
    nat,
> {
    if whole.len() > 0 && all_digits(whole) && (fraction is None || (fraction.unwrap().len() > 0
        && all_digits(fraction.unwrap()))) {
        Some(
            decimal_value(whole) * tens(places) + (match fraction {
                Some(digits) => fraction_value(digits, places),
                None => 0,
            }),
        )
    } else {
        None
    }
}

/// The volume in litres that `text` writes in cubic metres with a decimal
/// comma, if it writes one that fits.
pub open spec fn cubicage_value(text: Seq<char>) -> Option<nat> {
    match scaled_value(whole_part(text), fraction_part(text), 3) {
        Some(litres) => if litres <= u64::MAX {
            Some(litres)
        } else {
            None
        },
        None => None,
    }
}

/// The amount in cents that `text` writes with a decimal comma and with full
/// stops between the thousands, if it writes one that fits.
pub open spec fn price_value(text: Seq<char>) -> Option<nat> {
    match scaled_value(without_dots(whole_part(text)), fraction_part(text), 2) {
        Some(cents) => if cents <= i64::MAX {
            Some(cents)
        } else {
            None
        },
        None => None,
    }
}

/// A number of so many digits is less than ten to that many.
pub proof fn lemma_decimal_value_bound(digits: Seq<char>)
    requires
        all_digits(digits),
    ensures
        decimal_value(digits) < tens(digits.len()),
    decreases digits.len(),
{
    if digits.len() > 0 {
        let rest = digits.drop_last();
        assert(all_digits(rest)) by {
            assert forall|i: int| 0 <= i < rest.len() implies is_digit(#[trigger] rest[i]) by {
                assert(is_digit(digits[i]));
            }
        }
        lemma_decimal_value_bound(rest);
        assert(is_digit(digits[digits.len() - 1]));
    }
}

/// The place of the first comma among the first `length` characters of
/// `text`, which is all of it.
fn find_comma(text: &str, length: usize) -> (place: usize)
    requires
        length == text@.len(),
    ensures
        place == comma_position(text@),
        place <= length,
{
    let mut i: usize = 0;
    assert(text@.skip(0) =~= text@);
    while i < length
        invariant
            i <= length,
            length == text@.len(),
            comma_position(text@) == i + comma_position(text@.skip(i as int)),
        decreases length - i,
    {
        let ghost rest = text@.skip(i as int);
        assert(rest[0] == text@[i as int]);
        assert(rest.drop_first() =~= text@.skip(i + 1));
        if text.get_char(i) == ',' {
            return i;
        }
        i += 1;
    }
    assert(text@.skip(length as int) =~= Seq::empty());
    length
}

/// Whether the characters of `text` from `from` to `to` are digits.
fn only_digits(text: &str, from: usize, to: usize) -> (digits: bool)
    requires
        from <= to <= text@.len(),
    ensures
        digits == all_digits(text@.subrange(from as int, to as int)),
{
    let ghost range = text@.subrange(from as int, to as int);
    let mut i: usize = from;
    while i < to
        invariant
            from <= i <= to,
            to <= text@.len(),
            range == text@.subrange(from as int, to as int),
            forall|k: int| 0 <= k < i - from ==> is_digit(#[trigger] range[k]),
        decreases to - i,
    {
        let c = text.get_char(i);
        assert(c == range[i - from]);
        if c < '0' || c > '9' {
            return false;
        }
        i += 1;
    }
    true
}

/// The number that the characters of `text` before `to` write once the full
/// stops among them are left out, with the number of digits found, if the
/// others are digits and the number is at most `limit`.
fn grouped_value(text: &str, to: usize, limit: u64) -> (value: Option<(u64, usize)>)
    requires
        to <= text@.len(),
    ensures
        value.is_some() == (all_digits(without_dots(text@.take(to as int))) && decimal_value(
            without_dots(text@.take(to as int)),
        ) <= limit),
        value.is_some() ==> value.unwrap().0 == decimal_value(without_dots(text@.take(to as int)))
            && value.unwrap().1 == without_dots(text@.take(to as int)).len(),
{
    let ghost range = text@.take(to as int);
    let mut value: u64 = 0;
    let mut found: usize = 0;
    let mut i: usize = 0;
    assert(range.take(0) =~= Seq::empty());
    while i < to
        invariant
            i <= to,
            to <= text@.len(),
            range == text@.take(to as int),
            found <= i,
            found == without_dots(range.take(i as int)).len(),
            all_digits(without_dots(range.take(i as int))),
            value == decimal_value(without_dots(range.take(i as int))),
            value <= limit,
        decreases to - i,
    {
        let c = text.get_char(i);
        let ghost seen = without_dots(range.take(i as int));
        let ghost next = without_dots(range.take(i + 1));
        proof {
            assert(c == range[i as int]);
            assert(range.take(i + 1).drop_last() =~= range.take(i as int));
            assert(range.take(i + 1).last() == c);
            lemma_without_dots_prefix(range, i + 1);
        }
        if c != '.' {
            assert(next == seen.push(c));
            assert(next.drop_last() =~= seen);
            if c < '0' || c > '9' {
                assert(!is_digit(next[next.len() - 1]));
                assert(without_dots(range)[next.len() - 1] == next[next.len() - 1]);
                return None;
            }
            let digit: u64 = (c as u64) - ('0' as u64);
            if digit > limit || value > (limit - digit) / 10 {
                proof {
                    lemma_decimal_value_prefix(without_dots(range), next.len() as int);
                }
                return None;
            }
            value = 10 * value + digit;
            found += 1;
            assert forall|k: int| 0 <= k < next.len() implies is_digit(#[trigger] next[k]) by {
                if k < seen.len() {
                    assert(next[k] == seen[k]);
                    assert(is_digit(seen[k]));
                }
            }
        }
        i += 1;
    }
    assert(range.take(to as int) =~= range);
    Some((value, found))
}

/// Leaving out the full stops of a prefix gives a prefix of the text
/// without its full stops.
pub proof fn lemma_without_dots_prefix(text: Seq<char>, count: int)
    requires
        0 <= count <= text.len(),
    ensures
        without_dots(text.take(count)).len() <= without_dots(text).len(),
        without_dots(text.take(count)) == without_dots(text).take(
            without_dots(text.take(count)).len() as int,
        ),
    decreases text.len() - count,
{
    if count == text.len() {
        assert(text.take(count) =~= text);
        assert(without_dots(text).take(without_dots(text).len() as int) =~= without_dots(text));
    } else {
        lemma_without_dots_prefix(text, count + 1);
        assert(text.take(count + 1).drop_last() =~= text.take(count));
        let longer = without_dots(text.take(count + 1));
        let shorter = without_dots(text.take(count));
        let all = without_dots(text);
        if text[count] != '.' {
            assert(longer == shorter.push(text[count]));
            assert(shorter =~= longer.take(shorter.len() as int));
            assert(longer.take(shorter.len() as int) =~= all.take(longer.len() as int).take(
                shorter.len() as int,
            ));
            assert(all.take(longer.len() as int).take(shorter.len() as int) =~= all.take(
                shorter.len() as int,
            ));
        }
    }
}

/// Ten to the power of `places` is ten to the power of `kept` times ten to
/// the power of what is left.
pub proof fn lemma_tens_split(places: nat, kept: nat)
    requires
        kept <= places,
    ensures
        tens(places) == tens(kept) * tens((places - kept) as nat),
    decreases places - kept,
{
    if kept == places {
        assert(tens(kept) * 1 == tens(kept));
    } else {
        lemma_tens_split((places - 1) as nat, kept);
        let a = tens(kept);
        let b = tens((places - 1 - kept) as nat);
        assert(10 * (a * b) == a * (10 * b)) by (nonlinear_arith);
    }
}

/// The first powers of ten.
pub proof fn lemma_tens_small()
    ensures
        tens(0) == 1,
        tens(1) == 10,
        tens(2) == 100,
        tens(3) == 1000,
{
    reveal_with_fuel(tens, 5);
}

/// Ten to the power of `places`, for up to three places.
fn ten_to(places: usize) -> (power: u64)
    requires
        places <= 3,
    ensures
        power == tens(places as nat),
        power <= 1000,
{
    proof {
        lemma_tens_small();
    }
    if places == 0 {
        1
    } else if places == 1 {
        10
    } else if places == 2 {
        100
    } else {
        1000
    }
}

/// The fraction that the characters of `text` from `from` on write, in
/// units of the last of `places` places, if these are digits, one or more.
fn fraction_of(text: &str, from: usize, length: usize, places: usize) -> (value: Option<u64>)
    requires
        from <= length,
        length == text@.len(),
        places <= 3,
    ensures
        value.is_some() == (from < length && all_digits(text@.skip(from as int))),
        value.is_some() ==> value.unwrap() == fraction_value(text@.skip(from as int), places as nat),
        value.is_some() ==> value.unwrap() < tens(places as nat),
{
    let ghost digits = text@.skip(from as int);
    if from == length {
        return None;
    }
    let kept: usize = if length - from < places {
        length - from
    } else {
        places
    };
    proof {
        assert(digits.take(kept as int) =~= text@.subrange(from as int, from + kept));
        assert(digits.skip(kept as int) =~= text@.subrange(from + kept, length as int));
        if all_digits(digits) {
            assert forall|i: int| 0 <= i < kept implies is_digit(#[trigger] digits.take(kept as int)[i]) by {
                assert(is_digit(digits[i]));
            }
            assert forall|i: int| 0 <= i < digits.len() - kept implies is_digit(
                #[trigger] digits.skip(kept as int)[i],
            ) by {
                assert(is_digit(digits[i + kept]));
            }
        }
        if all_digits(digits.take(kept as int)) && all_digits(digits.skip(kept as int)) {
            assert forall|i: int| 0 <= i < digits.len() implies is_digit(#[trigger] digits[i]) by {
                if i < kept {
                    assert(is_digit(digits.take(kept as int)[i]));
                } else {
                    assert(is_digit(digits.skip(kept as int)[i - kept]));
                }
            }
        }
        if all_digits(digits.take(kept as int)) {
            lemma_decimal_value_bound(digits.take(kept as int));
        }
        lemma_tens_small();
        lemma_tens_split(places as nat, kept as nat);
    }
    let power = ten_to(places - kept);
    match digits_value(text, from, from + kept, 999) {
        Some(first) => {
            if only_digits(text, from + kept, length) {
                assert(first * power < tens(places as nat)) by (nonlinear_arith)
                    requires
                        first < tens(kept as nat),
                        power == tens((places - kept) as nat),
                        tens(places as nat) == tens(kept as nat) * tens((places - kept) as nat),
                        power > 0,
                ;
                Some(first * power)
            } else {
                None
            }
        },
        None => None,
    }
}

/// The volume in litres that `text` writes in cubic metres with a decimal
/// comma, as in `3,431`. Digits after the third decimal place are dropped.
pub fn parse_cubicage(text: &str) -> (litres: Option<Cubicage>)
    ensures
        litres.is_some() == cubicage_value(text@).is_some(),
        litres.is_some() ==> litres.unwrap() == cubicage_value(text@).unwrap(),
{
    let length = text.unicode_len();
    let comma = find_comma(text, length);
    if comma == 0 {
        return None;
    }
    assert(text@.subrange(0, comma as int) =~= whole_part(text@));
    let whole = match digits_value(text, 0, comma, 0xffff_ffff_ffff_ffff) {
        Some(whole) => whole,
        None => {
            proof {
                lemma_tens_small();
                if all_digits(whole_part(text@)) {
                    assert(decimal_value(whole_part(text@)) * tens(3) >= decimal_value(
                        whole_part(text@),
                    )) by (nonlinear_arith)
                        requires
                            tens(3) >= 1,
                    ;
                }
            }
            return None;
        },
    };
    let fraction: u64 = if comma < length {
        match fraction_of(text, comma + 1, length, 3) {
            Some(fraction) => fraction,
            None => {
                return None;
            },
        }
    } else {
        0
    };
    proof {
        lemma_tens_small();
    }
    let litres: u128 = (whole as u128) * 1000 + (fraction as u128);
    if litres > 0xffff_ffff_ffff_ffff {
        return None;
    }
    Some(litres as u64)
}

/// The amount in cents that `text` writes with a decimal comma and with
/// full stops between the thousands, as in `1.342,87`. Digits after the
/// second decimal place are dropped.
pub fn parse_price(text: &str) -> (cents: Option<Price>)
    ensures
        cents.is_some() == price_value(text@).is_some(),
        cents.is_some() ==> cents.unwrap() == price_value(text@).unwrap(),
{
    let length = text.unicode_len();
    let comma = find_comma(text, length);
    let whole = match grouped_value(text, comma, 0x7fff_ffff_ffff_ffff) {
        Some((whole, found)) => {
            if found == 0 {
                return None;
            }
            whole
        },
        None => {
            proof {
                lemma_tens_small();
                let digits = without_dots(whole_part(text@));
                if all_digits(digits) {
                    assert(decimal_value(digits) * tens(2) >= decimal_value(digits))
                        by (nonlinear_arith)
                        requires
                            tens(2) >= 1,
                    ;
                }
            }
            return None;
        },
    };
    let fraction: u64 = if comma < length {
        match fraction_of(text, comma + 1, length, 2) {
            Some(fraction) => fraction,
            None => {
                return None;
            },
        }
    } else {
        0
    };
    proof {
        lemma_tens_small();
    }
    let cents: u128 = (whole as u128) * 100 + (fraction as u128);
    if cents > 0x7fff_ffff_ffff_ffff {
        return None;
    }
    Some(cents as i64)
}

/// The digit that stands for `value`, which is less than ten.
pub open spec fn digit_char(value: nat) -> char {
    if value == 0 {
        '0'
    } else if value == 1 {
        '1'
    } else if value == 2 {
        '2'
    } else if value == 3 {
        '3'
    } else if value == 4 {
        '4'
    } else if value == 5 {
        '5'
    } else if value == 6 {
        '6'
    } else if value == 7 {
        '7'
    } else if value == 8 {
        '8'
    } else {
        '9'
    }
}

/// The number `value` written in decimal digits, without leading zeros.
pub open spec fn decimal_text(value: nat) -> Seq<char>
    decreases value,
{
    if value < 10 {
        seq![digit_char(value)]
    } else {
        decimal_text(value / 10).push(digit_char(value % 10))
    }
}

/// A number written in decimal digits reads back as itself: what
/// `decimal_text` writes is digits only, one at least, and their value is
/// the number.
pub proof fn lemma_decimal_text_reads_back(value: nat)
    ensures
        decimal_text(value).len() > 0,
        all_digits(decimal_text(value)),
        decimal_value(decimal_text(value)) == value,
        forall|limit: nat| value <= limit ==> unsigned_value(decimal_text(value), limit) == Some(value),
    decreases value,
{
    let text = decimal_text(value);
    if value < 10 {
        assert(text.drop_last() =~= Seq::empty());
        assert(decimal_value(text.drop_last()) == 0);
        assert(digit_value(digit_char(value)) == value);
    } else {
        lemma_decimal_text_reads_back(value / 10);
        let front = decimal_text(value / 10);
        assert(text.drop_last() =~= front);
        assert(digit_value(digit_char(value % 10)) == value % 10);
        assert forall|i: int| 0 <= i < text.len() implies is_digit(#[trigger] text[i]) by {
            if i < front.len() {
                assert(is_digit(front[i]));
            }
        }
    }
    assert(is_digit(text[0]));
    assert(unsigned_digits(text) == text);
}

/// The digit that stands for `value`, as a text of one character.
fn digit_text(value: u64) -> (text: &'static str)
    requires
        value < 10,
    ensures
        text@ == seq![digit_char(value as nat)],
{
    proof {
        reveal_strlit("0");
        reveal_strlit("1");
        reveal_strlit("2");
        reveal_strlit("3");
        reveal_strlit("4");
        reveal_strlit("5");
        reveal_strlit("6");
        reveal_strlit("7");
        reveal_strlit("8");
        reveal_strlit("9");
    }
    let text = if value == 0 {
        "0"
    } else if value == 1 {
        "1"
    } else if value == 2 {
        "2"
    } else if value == 3 {
        "3"
    } else if value == 4 {
        "4"
    } else if value == 5 {
        "5"
    } else if value == 6 {
        "6"
    } else if value == 7 {
        "7"
    } else if value == 8 {
        "8"
    } else {
        "9"
    };
    assert(text@ =~= seq![digit_char(value as nat)]);
    text
}

/// The number `value` written in decimal digits.
pub fn write_decimal(value: u64) -> (text: String)
    ensures
        text@ == decimal_text(value as nat),
    decreases value,
{
    if value < 10 {
        String::from_str(digit_text(value))
    } else {
        let mut text = write_decimal(value / 10);
        text.append(digit_text(value % 10));
        assert(text@ =~= decimal_text(value as nat));
        text
    }
}

} // verus!
