//! Numbers as text: decimal, zero-padded decimal and fixed-width hexadecimal.

use vstd::arithmetic::power::*;
use vstd::prelude::*;

verus! {

/// The hexadecimal digit of value `d`.
pub open spec fn digit(d: int) -> char
    recommends
        0 <= d < 16,
{
    "0123456789abcdef"@[d]
}

/// `n` in decimal, without leading zeros.
pub open spec fn decimal(n: nat) -> Seq<char>
    decreases n,
{
    if n < 10 {
        seq![digit(n as int)]
    } else {
        decimal(n / 10).push(digit((n % 10) as int))
    }
}

/// `n` in decimal, with leading zeros where it has fewer than `width` digits.
pub open spec fn padded_decimal(n: nat, width: nat) -> Seq<char> {
    let digits = decimal(n);
    let missing = if digits.len() < width {
        (width - digits.len()) as nat
    } else {
        0
    };
    Seq::new(missing, |i: int| '0') + digits
}

/// `n` in exactly sixteen lower-case hexadecimal digits, the highest first.
pub open spec fn hex16(n: u64) -> Seq<char> {
    Seq::new(16, |i: int| digit((n as int / pow(16, (15 - i) as nat)) % 16))
}

/// Appends the digit of value `d`.
fn push_digit(text: &mut String, d: u64)
    requires
        d < 16,
    ensures
        final(text)@ == old(text)@.push(digit(d as int)),
{
    let digits = "0123456789abcdef";
    proof {
        reveal_strlit("0123456789abcdef");
    }
    text.append(digits.substring_ascii(d as usize, d as usize + 1));
    assert(text@ =~= old(text)@.push(digit(d as int)));
}

/// Appends `n` in decimal.
fn push_decimal(text: &mut String, n: u64)
    ensures
        final(text)@ == old(text)@ + decimal(n as nat),
    decreases n,
{
    if n >= 10 {
        push_decimal(text, n / 10);
    }
    push_digit(text, n % 10);
    assert(text@ =~= old(text)@ + decimal(n as nat));
}

/// `n` in decimal.
pub fn to_decimal(n: u64) -> (text: String)
    ensures
        text@ == decimal(n as nat),
{
    let mut text = String::new();
    push_decimal(&mut text, n);
    assert(text@ =~= decimal(n as nat));
    text
}

/// `n` in decimal, zero-padded to at least four digits.
pub fn to_padded_decimal(n: u64) -> (text: String)
    ensures
        text@ == padded_decimal(n as nat, 4),
{
    let mut text = String::new();
    if n < 1000 {
        push_digit(&mut text, 0);
    }
    if n < 100 {
        push_digit(&mut text, 0);
    }
    if n < 10 {
        push_digit(&mut text, 0);
    }
    push_decimal(&mut text, n);
    proof {
        reveal_strlit("0123456789abcdef");
        reveal_with_fuel(decimal, 5);
        if n >= 1000 {
            assert(decimal(n as nat).len() >= 4);
        }
    }
    assert(text@ =~= padded_decimal(n as nat, 4));
    text
}

/// `n` in sixteen lower-case hexadecimal digits.
pub fn to_hex16(n: u64) -> (text: String)
    ensures
        text@ == hex16(n),
{
    let mut text = String::new();
    let mut place: u64 = 0x1000_0000_0000_0000;
    let mut i: usize = 0;
    proof {
        reveal_with_fuel(pow, 16);
    }
    while i < 16
        invariant
            i <= 16,
            i < 16 ==> place == pow(16, (15 - i) as nat),
            text@ == hex16(n).take(i as int),
        decreases 16 - i,
    {
        proof {
            lemma_pow_positive(16, (15 - i) as nat);
        }
        push_digit(&mut text, (n / place) % 16);
        proof {
            if i < 15 {
                reveal(pow);
                assert(pow(16, (15 - i) as nat) == 16 * pow(16, (14 - i) as nat));
            }
        }
        place = place / 16;
        i = i + 1;
        assert(text@ =~= hex16(n).take(i as int));
    }
    assert(hex16(n).take(16) =~= hex16(n));
    text
}

/// Different numbers are written differently.
pub proof fn law_decimal_injective(a: nat, b: nat)
    ensures
        decimal(a) == decimal(b) ==> a == b,
    decreases a,
{
    reveal_strlit("0123456789abcdef");
    if decimal(a) == decimal(b) {
        lemma_decimal_len(a);
        lemma_decimal_len(b);
        if a >= 10 && b >= 10 {
            law_decimal_injective(a / 10, b / 10);
            assert(decimal(a).drop_last() =~= decimal(a / 10));
            assert(decimal(b).drop_last() =~= decimal(b / 10));
            assert(decimal(a).last() == decimal(b).last());
        } else {
            assert(decimal(a).last() == decimal(b).last());
        }
    }
}

/// A number of one digit is below ten, and only such a number.
proof fn lemma_decimal_len(n: nat)
    ensures
        decimal(n).len() >= 1,
        decimal(n).len() == 1 <==> n < 10,
    decreases n,
{
    if n >= 10 {
        lemma_decimal_len(n / 10);
    }
}

/// A number below ten thousand, written in four digits.
proof fn lemma_four_digits(n: nat)
    requires
        n < 10000,
    ensures
        padded_decimal(n, 4) == seq![
            digit((n / 1000) as int),
            digit((n / 100 % 10) as int),
            digit((n / 10 % 10) as int),
            digit((n % 10) as int),
        ],
{
    reveal_strlit("0123456789abcdef");
    reveal_with_fuel(decimal, 5);
    assert(n / 10 / 10 == n / 100 && n / 10 / 10 / 10 == n / 1000);
    assert(padded_decimal(n, 4) =~= seq![
        digit((n / 1000) as int),
        digit((n / 100 % 10) as int),
        digit((n / 10 % 10) as int),
        digit((n % 10) as int),
    ]);
}

/// A number of ten thousand or more has more than four digits.
proof fn lemma_many_digits(n: nat)
    requires
        n >= 10000,
    ensures
        decimal(n).len() > 4,
        padded_decimal(n, 4) == decimal(n),
{
    reveal_with_fuel(decimal, 5);
    lemma_decimal_len(n / 10 / 10 / 10 / 10);
    assert(padded_decimal(n, 4) =~= decimal(n));
}

/// Different numbers are written differently in four digits or more.
pub proof fn law_padded_decimal_injective(a: nat, b: nat)
    ensures
        padded_decimal(a, 4) == padded_decimal(b, 4) ==> a == b,
{
    if padded_decimal(a, 4) == padded_decimal(b, 4) {
        reveal_strlit("0123456789abcdef");
        if a < 10000 {
            lemma_four_digits(a);
        } else {
            lemma_many_digits(a);
        }
        if b < 10000 {
            lemma_four_digits(b);
        } else {
            lemma_many_digits(b);
        }
        if a < 10000 && b < 10000 {
            let x = padded_decimal(a, 4);
            assert(x[0] == digit((a / 1000) as int) && x[0] == digit((b / 1000) as int));
            assert(x[1] == digit((a / 100 % 10) as int) && x[1] == digit((b / 100 % 10) as int));
            assert(x[2] == digit((a / 10 % 10) as int) && x[2] == digit((b / 10 % 10) as int));
            assert(x[3] == digit((a % 10) as int) && x[3] == digit((b % 10) as int));
        } else {
            law_decimal_injective(a, b);
        }
    }
}

/// The value of a text of decimal digits.
spec fn read_decimal(digits: Seq<char>) -> int {
    digits.fold_left(0, |v: int, c: char| 10 * v + (c as int - '0' as int))
}

/// The sixteen digits, one by one.
proof fn lemma_digit_values()
    ensures
        forall|d: int|
            0 <= d < 10 ==> '0' <= #[trigger] digit(d) <= '9' && digit(d) as int - '0' as int == d,
        forall|d: int|
            10 <= d < 16 ==> 'a' <= #[trigger] digit(d) <= 'f' && digit(d) as int - 'a' as int + 10
                == d,
{
    reveal_strlit("0123456789abcdef");
}

/// A number in decimal reads back as that number: it is made of the digits `0` to
/// `9` alone, the highest first, and has no zero in front unless it is zero.
pub proof fn law_decimal_reads_back(n: nat)
    ensures
        decimal(n).fold_left(0int, |v: int, c: char| 10 * v + (c as int - '0' as int)) == n,
        forall|i: int| 0 <= i < decimal(n).len() ==> '0' <= #[trigger] decimal(n)[i] <= '9',
        decimal(n).len() >= 1,
        n > 0 ==> decimal(n)[0] != '0',
        n == 0 ==> decimal(n) == seq!['0'],
    decreases n,
{
    lemma_digit_values();
    let read = |v: int, c: char| 10 * v + (c as int - '0' as int);
    if n < 10 {
        let one = decimal(n);
        assert(one.drop_last() =~= Seq::<char>::empty());
        assert(one.drop_last().fold_left(0int, read) == 0);
        assert(one.last() == digit(n as int));
    } else {
        law_decimal_reads_back(n / 10);
        assert(decimal(n).drop_last() =~= decimal(n / 10));
        assert(decimal(n).last() == digit((n % 10) as int));
        assert(decimal(n)[0] == decimal(n / 10)[0]);
        assert forall|i: int| 0 <= i < decimal(n).len() implies '0' <= #[trigger] decimal(n)[i]
            <= '9' by {
            if i < decimal(n / 10).len() {
                assert(decimal(n)[i] == decimal(n / 10)[i]);
            }
        }
    }
}

/// Zeros in front do not change the value.
proof fn lemma_zeros_in_front(zeros: Seq<char>, digits: Seq<char>)
    requires
        forall|i: int| 0 <= i < zeros.len() ==> #[trigger] zeros[i] == '0',
    ensures
        read_decimal(zeros + digits) == read_decimal(digits),
    decreases zeros.len() + digits.len(),
{
    if digits.len() > 0 {
        lemma_zeros_in_front(zeros, digits.drop_last());
        assert((zeros + digits).drop_last() =~= zeros + digits.drop_last());
        assert((zeros + digits).last() == digits.last());
    } else if zeros.len() > 0 {
        assert(zeros + digits =~= zeros);
        assert(zeros.last() == zeros[zeros.len() - 1]);
        lemma_zeros_in_front(zeros.drop_last(), digits);
        assert(zeros.drop_last() + digits =~= zeros.drop_last());
    } else {
        assert(zeros + digits =~= digits);
    }
}

/// A zero-padded number reads back as that number: it is made of the digits `0` to
/// `9` alone, has at least as many of them as asked for, and has more only where
/// there is no zero in front.
pub proof fn law_padded_decimal_reads_back(n: nat, width: nat)
    ensures
        padded_decimal(n, width).fold_left(
            0int,
            |v: int, c: char| 10 * v + (c as int - '0' as int),
        ) == n,
        forall|i: int|
            0 <= i < padded_decimal(n, width).len() ==> '0' <= #[trigger] padded_decimal(
                n,
                width,
            )[i] <= '9',
        padded_decimal(n, width).len() >= width,
        padded_decimal(n, width).len() > width && n > 0 ==> padded_decimal(n, width)[0] != '0',
        padded_decimal(n, width).len() > width && n == 0 ==> padded_decimal(n, width).len() == 1,
{
    let digits = decimal(n);
    let missing = if digits.len() < width {
        (width - digits.len()) as nat
    } else {
        0
    };
    let zeros = Seq::new(missing, |i: int| '0');
    law_decimal_reads_back(n);
    lemma_zeros_in_front(zeros, digits);
    assert forall|i: int| 0 <= i < padded_decimal(n, width).len() implies '0'
        <= #[trigger] padded_decimal(n, width)[i] <= '9' by {
        if i >= missing {
            assert(padded_decimal(n, width)[i] == digits[i - missing]);
        }
    }
    if missing == 0 {
        assert(padded_decimal(n, width) =~= digits);
    }
}

/// A number in sixteen hexadecimal digits: the last digit is its remainder by
/// sixteen, and the others are what its quotient ends with, which begins with a
/// zero. So the digits of zero are all zero, and every digit counts.
pub proof fn law_hex16_counts_every_digit(n: u64)
    ensures
        hex16(n).len() == 16,
        hex16(n).last() == "0123456789abcdef"@[n as int % 16],
        hex16((n / 16) as u64)[0] == '0',
        hex16((n / 16) as u64).drop_first() == hex16(n).drop_last(),
{
    reveal_strlit("0123456789abcdef");
    let q = (n / 16) as u64;
    reveal_with_fuel(pow, 17);
    assert(pow(16, 0) == 1);
    assert(pow(16, 15) == 0x1000_0000_0000_0000);
    assert(q < 0x1000_0000_0000_0000);
    assert(q as int / pow(16, 15) == 0);
    assert forall|i: int| 1 <= i < 16 implies #[trigger] hex16(q)[i] == hex16(n)[i - 1] by {
        let k = (15 - i) as nat;
        lemma_pow_positive(16, k);
        reveal(pow);
        assert(pow(16, k + 1) == 16 * pow(16, k));
        vstd::arithmetic::div_mod::lemma_div_denominator(n as int, 16, pow(16, k));
    }
    assert(hex16(q).drop_first() =~= hex16(n).drop_last());
}

/// The hexadecimal digits are `0` to `9` and `a` to `f`, in the order of their
/// values.
pub proof fn law_digits_are_ordered(d: int)
    requires
        0 <= d < 16,
    ensures
        d < 10 ==> digit(d) as int == '0' as int + d,
        d >= 10 ==> digit(d) as int == 'a' as int + d - 10,
{
    lemma_digit_values();
}

} // verus!
