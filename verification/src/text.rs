//! Text: decimal numbers, prefixes and comparison.

use vstd::arithmetic::power::pow;
use vstd::prelude::*;
use vstd::string::StringExecFns;

verus! {

/// The character of a decimal digit.
pub open spec fn digit(value: nat) -> char {
    (0x30 + value) as char
}

/// The decimal notation of `value`, without leading zeros.
pub open spec fn decimal(value: nat) -> Seq<char>
    decreases value,
{
    if value < 10 {
        seq![digit(value)]
    } else {
        decimal(value / 10).push(digit(value % 10))
    }
}

/// The one-digit string of `value`.
fn digit_str(value: usize) -> (s: &'static str)
    requires
        value < 10,
    ensures
        s@ == seq![digit(value as nat)],
{
    proof {
        reveal_strlit("0");
        reveal_strlit("1");
        reveal_strlit("2");
        reveal_strlit("3");
        reveal_strlit("4");
        reveal_strlit("5");
        reveal_strlit("6");
        reveal_strlit("7");
        reveal_strlit("8");
        reveal_strlit("9");
    }
    let s: &'static str = match value {
        0 => "0",
        1 => "1",
        2 => "2",
        3 => "3",
        4 => "4",
        5 => "5",
        6 => "6",
        7 => "7",
        8 => "8",
        _ => "9",
    };
    assert(s@ =~= seq![digit(value as nat)]);
    s
}

/// Appends the decimal notation of `value` to `out`.
pub fn push_decimal(out: &mut String, value: usize)
    ensures
        final(out)@ == old(out)@ + decimal(value as nat),
    decreases value,
{
    if value >= 10 {
        push_decimal(out, value / 10);
    }
    out.append(digit_str(value % 10));
    assert(out@ =~= old(out)@ + decimal(value as nat));
}

/// The number that decimal digits spell.
pub open spec fn digits_value(digits: Seq<char>) -> nat
    decreases digits.len(),
{
    if digits.len() == 0 {
        0
    } else {
        (digits_value(digits.drop_last()) * 10 + (digits.last() as int - '0' as int)) as nat
    }
}

/// Whether `c` is a decimal digit.
pub open spec fn is_digit(c: char) -> bool {
    '0' <= c <= '9'
}

/// Whether `text` holds decimal digits only.
pub open spec fn all_digits(text: Seq<char>) -> bool {
    forall|i: int| 0 <= i < text.len() ==> is_digit(#[trigger] text[i])
}

/// The number that `text` spells: decimal digits, at least one, behind an
/// optional plus sign.
pub open spec fn parsed_number(text: Seq<char>) -> Option<nat> {
    let digits = if text.len() > 0 && text[0] == '+' {
        text.skip(1)
    } else {
        text
    };
    if digits.len() > 0 && all_digits(digits) {
        Some(digits_value(digits))
    } else {
        None
    }
}

/// The characters of `s`.
pub fn to_chars(s: &str) -> (chars: Vec<char>)
    ensures
        chars@ == s@,
{
    let mut chars: Vec<char> = Vec::new();
    for c in it: s.chars()
        invariant
            it.seq() == s@,
            chars@ == s@.take(it.index() as int),
    {
        chars.push(c);
        assert(chars@ =~= s@.take(it.index() + 1));
    }
    assert(s@.take(s@.len() as int) =~= s@);
    chars
}

/// What follows `prefix` in `s`, if `s` starts with it.
pub fn strip_prefix<'a>(s: &'a str, prefix: &str) -> (rest: Option<&'a str>)
    ensures
        match rest {
            Some(rest) => prefix@.is_prefix_of(s@) && rest@ == s@.skip(prefix@.len() as int),
            None => !prefix@.is_prefix_of(s@),
        },
{
    let chars: Vec<char> = to_chars(s);
    let wanted: Vec<char> = to_chars(prefix);
    if chars.len() < wanted.len() {
        return None;
    }
    let count: usize = wanted.len();
    for i in 0..count
        invariant
            chars@ == s@,
            wanted@ == prefix@,
            count == wanted.len(),
            count <= chars.len(),
            s@.take(i as int) == prefix@.take(i as int),
    {
        if chars[i] != wanted[i] {
            assert(prefix@[i as int] != s@[i as int]);
            return None;
        }
        assert(s@.take(i + 1) =~= s@.take(i as int).push(s@[i as int]));
        assert(prefix@.take(i + 1) =~= prefix@.take(i as int).push(prefix@[i as int]));
    }
    assert(prefix@.take(count as int) =~= prefix@);
    assert(prefix@ =~= s@.subrange(0, prefix@.len() as int));
    let len: usize = chars.len();
    let rest: &'a str = s.substring_char(count, len);
    assert(rest@ =~= s@.skip(prefix@.len() as int));
    Some(rest)
}

/// Whether two texts are the same.
pub fn same_text(a: &str, b: &str) -> (same: bool)
    ensures
        same == (a@ == b@),
{
    match strip_prefix(a, b) {
        Some(rest) => {
            let same: bool = rest.unicode_len() == 0;
            proof {
                if a@.len() == b@.len() {
                    assert(a@ =~= b@);
                }
            }
            same
        },
        None => {
            assert(a@ =~= b@ ==> b@.is_prefix_of(a@));
            false
        },
    }
}

/// A prefix of a number spells no larger number.
proof fn lemma_digits_value_monotonic(digits: Seq<char>, count: int)
    requires
        0 <= count <= digits.len(),
        all_digits(digits),
    ensures
        digits_value(digits.take(count)) <= digits_value(digits),
    decreases digits.len() - count,
{
    if count < digits.len() {
        lemma_digits_value_monotonic(digits, count + 1);
        assert(digits.take(count + 1).drop_last() =~= digits.take(count));
        assert(is_digit(digits[count]));
    } else {
        assert(digits.take(count) =~= digits);
    }
}

/// Reads a number: decimal digits, at least one, behind an optional plus sign,
/// and no more than a `usize` holds.
pub fn parse_usize(s: &str) -> (number: Option<usize>)
    ensures
        match number {
            Some(value) => parsed_number(s@) == Some(value as nat),
            None => parsed_number(s@) matches Some(value) ==> value > usize::MAX,
        },
{
    let chars: Vec<char> = to_chars(s);
    let len: usize = chars.len();
    let start: usize = if len > 0 && chars[0] == '+' { 1 } else { 0 };
    if start == len {
        return None;
    }
    let ghost digits = s@.skip(start as int);
    assert(start == 0 ==> digits =~= s@);
    let mut value: usize = 0;
    for i in start..len
        invariant
            chars@ == s@,
            len == chars.len(),
            start < len,
            digits == s@.skip(start as int),
            parsed_number(s@) == (if all_digits(digits) {
                Some(digits_value(digits))
            } else {
                None
            }),
            forall|k: int| 0 <= k < i - start ==> is_digit(digits[k]),
            value == digits_value(digits.take(i - start)),
    {
        let c: char = chars[i];
        assert(digits[i - start] == c);
        if !('0' <= c && c <= '9') {
            assert(!is_digit(digits[i - start]));
            return None;
        }
        let digit: usize = (c as u32 - '0' as u32) as usize;
        assert(digits.take(i + 1 - start).drop_last() =~= digits.take(i - start));
        assert(digits_value(digits.take(i + 1 - start)) == value * 10 + digit);
        if value > (usize::MAX - digit) / 10 {
            proof {
                if all_digits(digits) {
                    lemma_digits_value_monotonic(digits, i + 1 - start);
                }
            }
            return None;
        }
        value = value * 10 + digit;
    }
    assert(digits.take(len - start) =~= digits);
    Some(value)
}

/// The number that digits spell is positional: digits in front of others count
/// ten times as much for each of those, and a single digit counts its value.
pub proof fn law_digits_are_positional(a: Seq<char>, b: Seq<char>)
    requires
        all_digits(a),
        all_digits(b),
    ensures
        digits_value(a + b) == digits_value(a) * pow(10, b.len()) + digits_value(b),
        a.len() == 1 ==> digits_value(a) == a[0] as int - '0' as int,
    decreases b.len(),
{
    reveal(pow);
    if a.len() == 1 {
        assert(is_digit(a[0]));
        assert(digits_value(a.drop_last()) == 0);
    }
    if b.len() == 0 {
        assert(a + b =~= a);
        assert(digits_value(b) == 0);
        assert(digits_value(a) * pow(10, 0) == digits_value(a)) by (nonlinear_arith)
            requires
                pow(10, 0) == 1,
        ;
    } else {
        let less = b.drop_last();
        assert forall|i: int| 0 <= i < less.len() implies is_digit(#[trigger] less[i]) by {
            assert(is_digit(b[i]));
        }
        assert(is_digit(b[b.len() - 1]));
        law_digits_are_positional(a, less);
        assert((a + b).drop_last() =~= a + less);
        let power = pow(10, less.len());
        assert(pow(10, b.len()) == 10 * power);
        let value = digits_value(a) as int;
        assert(value * (10 * power) == (value * power) * 10) by (nonlinear_arith);
    }
}

/// The decimal notation of a number spells that number, in digits, and has no
/// leading zero.
pub proof fn law_decimal_spells_its_value(value: nat)
    ensures
        decimal(value).len() > 0,
        all_digits(decimal(value)),
        digits_value(decimal(value)) == value,
        decimal(value).len() > 1 ==> decimal(value)[0] != '0',
        parsed_number(decimal(value)) == Some(value),
    decreases value,
{
    let text = decimal(value);
    if value < 10 {
        assert(digits_value(text.drop_last()) == 0);
    } else {
        law_decimal_spells_its_value(value / 10);
        let less = decimal(value / 10);
        assert(text.drop_last() =~= less);
        assert(text[0] == less[0]);
        assert forall|i: int| 0 <= i < text.len() implies is_digit(#[trigger] text[i]) by {
            if i < less.len() {
                assert(is_digit(less[i]));
            }
        }
        if less.len() == 1 {
            assert(digits_value(less.drop_last()) == 0);
        }
    }
    assert(is_digit(text[0]));
}

/// A text is a number exactly where it is at least one digit, behind a plus sign
/// or not, and the sign changes nothing.
pub proof fn law_numbers_are_digits(text: Seq<char>)
    ensures
        text.len() > 0 && (forall|i: int| 0 <= i < text.len() ==> '0' <= #[trigger] text[i] <= '9')
            ==> {
            &&& parsed_number(text) == Some(digits_value(text))
            &&& parsed_number(seq!['+'] + text) == Some(digits_value(text))
        },
        parsed_number(text) is Some ==> text.len() > 0 && (forall|i: int|
            1 <= i < text.len() ==> '0' <= #[trigger] text[i] <= '9') && ('0' <= text[0] <= '9' || (
        text[0] == '+' && text.len() > 1)),
{
    let signed = seq!['+'] + text;
    assert(signed.skip(1) =~= text);
    if text.len() > 0 && (forall|i: int|
        0 <= i < text.len() ==> '0' <= #[trigger] text[i] <= '9') {
        assert(all_digits(text));
        assert('0' <= text[0] <= '9');
    }
    if parsed_number(text) is Some {
        if text[0] == '+' {
            let digits = text.skip(1);
            assert forall|i: int| 1 <= i < text.len() implies '0' <= #[trigger] text[i] <= '9' by {
                assert(is_digit(digits[i - 1]));
            }
        } else {
            assert forall|i: int| 0 <= i < text.len() implies '0' <= #[trigger] text[i] <= '9' by {
                assert(is_digit(text[i]));
            }
            assert('0' <= text[0] <= '9');
        }
    }
}

} // verus!
