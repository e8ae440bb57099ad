//! Text: decimal numerals, and what messages are built from.
use vstd::prelude::*;

verus! {

/// `String::push` of the standard library appends one character to the end of the string and
/// leaves what stood there as it was.
pub assume_specification[ String::push ](s: &mut String, ch: char)
    ensures
        final(s)@ == old(s)@.push(ch),
;

/// The decimal numeral of a digit.
pub open spec fn digit(d: nat) -> char {
    ('0' as nat + d) as char
}

/// The decimal numeral of a natural number, without leading zeros.
pub open spec fn natural_numeral(n: nat) -> Seq<char>
    decreases n,
{
    if n < 10 {
        seq![digit(n)]
    } else {
        natural_numeral(n / 10).push(digit(n % 10))
    }
}

/// The decimal numeral of an integer: a minus sign before that of its magnitude where it is
/// negative.
pub open spec fn numeral(n: int) -> Seq<char> {
    if n < 0 {
        seq!['-'] + natural_numeral((-n) as nat)
    } else {
        natural_numeral(n as nat)
    }
}

/// Appends the decimal numeral of a natural number.
pub fn push_natural(text: &mut String, n: u64)
    ensures
        final(text)@ == old(text)@ + natural_numeral(n as nat),
    decreases n,
{
    if n >= 10 {
        push_natural(text, n / 10);
    }
    let d: u8 = (n % 10) as u8;
    text.push((48 + d) as char);
    assert(text@ =~= old(text)@ + natural_numeral(n as nat));
}

/// Appends the decimal numeral of an integer.
pub fn push_integer(text: &mut String, n: i64)
    ensures
        final(text)@ == old(text)@ + numeral(n as int),
{
    if n < 0 {
        text.push('-');
        push_natural(text, (-(n + 1)) as u64 + 1);
        assert(text@ =~= old(text)@ + numeral(n as int));
    } else {
        push_natural(text, n as u64);
    }
}

/// The number that a row of decimal digits is read as.
pub open spec fn decimal_value(text: Seq<char>) -> int
    decreases text.len(),
{
    if text.len() == 0 {
        0
    } else {
        10 * decimal_value(text.drop_last()) + (text.last() as int - '0' as int)
    }
}

/// The numeral of a natural number is read back as that number. It is made of digits only, and
/// starts with a zero only where it is that of zero.
pub proof fn natural_numerals_are_read_back(n: nat)
    ensures
        decimal_value(natural_numeral(n)) == n,
        natural_numeral(n).len() > 0,
        forall|i: int|
            0 <= i < natural_numeral(n).len() ==> '0' <= #[trigger] natural_numeral(n)[i] <= '9',
        natural_numeral(n)[0] == '0' ==> n == 0,
    decreases n,
{
    reveal_with_fuel(decimal_value, 2);
    let text = natural_numeral(n);
    if n < 10 {
        assert(text.drop_last() =~= Seq::empty());
        assert(text.last() as int == '0' as int + n);
    } else {
        natural_numerals_are_read_back(n / 10);
        let earlier = natural_numeral(n / 10);
        assert(text.drop_last() =~= earlier);
        assert(text.last() as int == '0' as int + n % 10);
        assert forall|i: int| 0 <= i < text.len() implies '0' <= #[trigger] text[i] <= '9' by {
            if i < earlier.len() {
                assert(text[i] == earlier[i]);
            }
        }
        assert(text[0] == earlier[0]);
    }
}

/// The numeral of a negative number is a minus sign and the numeral of its magnitude. That of any
/// other number has no sign.
pub proof fn numerals_are_read_back(n: int)
    ensures
        n >= 0 ==> decimal_value(numeral(n)) == n && numeral(n)[0] != '-',
        n < 0 ==> numeral(n).len() > 1 && numeral(n)[0] == '-' && decimal_value(numeral(n).skip(1))
            == -n && numeral(n)[1] != '0',
{
    if n >= 0 {
        natural_numerals_are_read_back(n as nat);
        assert('0' <= natural_numeral(n as nat)[0]);
    } else {
        natural_numerals_are_read_back((-n) as nat);
        assert(numeral(n).skip(1) =~= natural_numeral((-n) as nat));
        assert(numeral(n)[1] == natural_numeral((-n) as nat)[0]);
    }
}

} // verus!
