//! Decimal numbers as text: the indices that the commands take as arguments
//! and the line numbers that the listing and the diagnostics show.

use vstd::prelude::*;

verus! {

/// One of the ten decimal digits.
pub open spec fn is_digit(c: char) -> bool {
    '0' <= c <= '9'
}

/// The number that a decimal digit stands for.
pub open spec fn digit_value(c: char) -> nat {
    (c as int - '0' as int) as nat
}

/// The digit that stands for a number below ten.
pub open spec fn digit_char(d: nat) -> char {
    (d + '0' as nat) as char
}

/// The number that a run of decimal digits stands for.
pub open spec fn digits_value(digits: Seq<char>) -> nat
    decreases digits.len(),
{
    if digits.len() == 0 {
        0
    } else {
        digits_value(digits.drop_last()) * 10 + digit_value(digits.last())
    }
}

/// A run of at least one decimal digit.
pub open spec fn is_digits(digits: Seq<char>) -> bool {
    &&& digits.len() > 0
    &&& forall|i: int| 0 <= i < digits.len() ==> is_digit(#[trigger] digits[i])
}

/// `arg` without the plus sign in front, if it has one there.
pub open spec fn without_sign(arg: Seq<char>) -> Seq<char> {
    if arg.len() > 0 && arg[0] == '+' {
        arg.skip(1)
    } else {
        arg
    }
}

/// The number that an argument stands for: an optional plus sign, then
/// nothing but decimal digits, at least one.
pub open spec fn number_of(arg: Seq<char>) -> Option<nat> {
    if is_digits(without_sign(arg)) {
        Some(digits_value(without_sign(arg)))
    } else {
        None
    }
}

/// The index that an argument stands for: its number, where that fits the
/// machine's word.
pub open spec fn index_of(arg: Seq<char>) -> Option<usize> {
    match number_of(arg) {
        Some(n) => if n <= usize::MAX {
            Some(n as usize)
        } else {
            None
        },
        None => None,
    }
}

/// The decimal digits of a number, without leading zeros.
pub open spec fn decimal_text(n: nat) -> Seq<char>
    decreases n,
{
    if n < 10 {
        seq![digit_char(n)]
    } else {
        decimal_text(n / 10).push(digit_char(n % 10))
    }
}

/// The digits read so far never stand for more than all of them.
pub proof fn lemma_digits_value_grows(digits: Seq<char>, n: int)
    requires
        0 <= n <= digits.len(),
    ensures
        digits_value(digits.take(n)) <= digits_value(digits),
    decreases digits.len(),
{
    if n == digits.len() {
        assert(digits.take(n) =~= digits);
    } else {
        lemma_digits_value_grows(digits.drop_last(), n);
        assert(digits.drop_last().take(n) =~= digits.take(n));
    }
}

/// The text of a number is a run of digits that stands for the number.
pub proof fn lemma_decimal_text_is_number(n: nat)
    ensures
        is_digits(decimal_text(n)),
        digits_value(decimal_text(n)) == n,
        number_of(decimal_text(n)) == Some(n),
    decreases n,
{
    if n < 10 {
        assert(decimal_text(n).drop_last() =~= Seq::<char>::empty());
        assert(digits_value(decimal_text(n).drop_last()) == 0);
    } else {
        lemma_decimal_text_is_number(n / 10);
        let front = decimal_text(n / 10);
        assert(decimal_text(n).drop_last() =~= front);
    }
    assert(decimal_text(n)[0] != '+');
}

/// Reads a list index from an argument: an optional plus sign and decimal
/// digits. `None` where the argument is anything else, or stands for a
/// number that does not fit `usize`.
pub fn parse_index(arg: &str) -> (index: Option<usize>)
    ensures
        index == index_of(arg@),
{
    let mut value: usize = 0;
    let mut signed = false;
    let mut seen = false;
    let ghost mut count: int = 0;
    for c in it: arg.chars()
        invariant
            it.seq() == arg@,
            signed <==> it.index() > 0 && arg@[0] == '+',
            count == it.index() - (if signed {
                1int
            } else {
                0int
            }),
            seen <==> count > 0,
            forall|j: int| 0 <= j < count ==> is_digit(#[trigger] without_sign(arg@)[j]),
            value == digits_value(without_sign(arg@).take(count)),
    {
        let ghost digits = without_sign(arg@);
        if !seen && !signed && c == '+' {
            signed = true;
        } else {
            assert(digits[count] == c);
            if !(c >= '0' && c <= '9') {
                return None;
            }
            let d: usize = (c as u32 - '0' as u32) as usize;
            proof {
                assert(digits.take(count + 1).drop_last() =~= digits.take(count));
                assert(digits.take(count + 1).last() == c);
                assert(d == digit_value(c));
            }
            let next = match value.checked_mul(10) {
                Some(tenfold) => tenfold.checked_add(d),
                None => None,
            };
            match next {
                Some(v) => {
                    value = v;
                },
                None => {
                    proof {
                        assert(digits_value(digits.take(count + 1)) > usize::MAX);
                        lemma_digits_value_grows(digits, count + 1);
                    }
                    return None;
                },
            }
            seen = true;
            proof {
                count = count + 1;
            }
        }
    }
    proof {
        assert(without_sign(arg@).take(count) =~= without_sign(arg@));
    }
    if seen {
        Some(value)
    } else {
        None
    }
}

/// Appends the decimal digits of `n` to `text`.
fn push_decimal(text: &mut String, n: usize)
    ensures
        final(text)@ == old(text)@ + decimal_text(n as nat),
    decreases n,
{
    if n >= 10 {
        push_decimal(text, n / 10);
    }
    let d: u8 = (n % 10) as u8;
    let c: char = (48u8 + d) as char;
    assert(c == digit_char((n % 10) as nat));
    text.push(c);
    proof {
        if n < 10 {
            assert(old(text)@.push(c) =~= old(text)@ + decimal_text(n as nat));
        } else {
            assert((old(text)@ + decimal_text((n / 10) as nat)).push(c) =~= old(text)@
                + decimal_text(n as nat));
        }
    }
}

/// Writes a number in decimal digits.
pub fn decimal(n: usize) -> (text: String)
    ensures
        text@ == decimal_text(n as nat),
{
    let mut text = String::new();
    push_decimal(&mut text, n);
    assert(Seq::<char>::empty() + decimal_text(n as nat) =~= decimal_text(n as nat));
    text
}

} // verus!
