//! Numbers as text: decimal digits and padding to a column width.

use vstd::prelude::*;
use vstd::string::{StrSliceExecFns, StringExecFns};

verus! {

/// The character of one decimal digit.
pub open spec fn digit_char(digit: nat) -> char {
    if digit == 0 {
        '0'
    } else if digit == 1 {
        '1'
    } else if digit == 2 {
        '2'
    } else if digit == 3 {
        '3'
    } else if digit == 4 {
        '4'
    } else if digit == 5 {
        '5'
    } else if digit == 6 {
        '6'
    } else if digit == 7 {
        '7'
    } else if digit == 8 {
        '8'
    } else {
        '9'
    }
}

/// A number in decimal digits, without leading zeros.
pub open spec fn decimal(n: nat) -> Seq<char>
    decreases n,
{
    if n < 10 {
        seq![digit_char(n)]
    } else {
        decimal(n / 10) + seq![digit_char(n % 10)]
    }
}

/// The number of decimal digits of a number; 0 has one digit.
pub open spec fn digits(n: nat) -> nat
    decreases n,
{
    if n < 10 {
        1
    } else {
        digits(n / 10) + 1
    }
}

/// `count` times the character `fill`.
pub open spec fn filler(fill: char, count: int) -> Seq<char> {
    Seq::new(if count > 0 { count as nat } else { 0 }, |i: int| fill)
}

/// A text moved to the right end of a column of `width` characters, which is
/// filled up with `fill`. A text wider than the column stays as it is.
pub open spec fn pad_left(text: Seq<char>, width: nat, fill: char) -> Seq<char> {
    filler(fill, width - text.len()) + text
}

/// Texts can be joined in any grouping.
pub proof fn lemma_concat_associates(a: Seq<char>, b: Seq<char>, c: Seq<char>)
    ensures
        (a + b) + c == a + (b + c),
{
    assert((a + b) + c =~= a + (b + c));
}

/// A number has as many characters as it has digits.
pub proof fn lemma_decimal_len(n: nat)
    ensures
        decimal(n).len() == digits(n),
    decreases n,
{
    if n >= 10 {
        lemma_decimal_len(n / 10);
    }
}

/// Ten to the power of `exponent`.
pub open spec fn pow10(exponent: nat) -> nat
    decreases exponent,
{
    if exponent == 0 {
        1
    } else {
        10 * pow10((exponent - 1) as nat)
    }
}

/// A number below ten to the power of `k` has at most `k` digits.
pub proof fn lemma_digits_bound(n: nat, k: nat)
    requires
        n < pow10(k),
        k >= 1,
    ensures
        digits(n) <= k,
    decreases k,
{
    if n >= 10 {
        if k == 1 {
            assert(pow10(1) == 10) by {
                reveal_with_fuel(pow10, 2);
            }
        } else {
            lemma_digits_bound(n / 10, (k - 1) as nat);
        }
    }
}

/// A number of `k` digits lies from ten to the power of `k - 1` up to, but
/// without, ten to the power of `k`; only 0 lies below.
pub proof fn lemma_digits_between_powers(n: nat)
    ensures
        n < pow10(digits(n)),
        n >= 1 ==> pow10((digits(n) - 1) as nat) <= n,
    decreases n,
{
    reveal_with_fuel(pow10, 2);
    if n >= 10 {
        lemma_digits_between_powers(n / 10);
    }
}

/// No 128-bit number has more than 39 digits.
pub proof fn lemma_digits_of_u128(n: u128)
    ensures
        1 <= digits(n as nat) <= 39,
{
    assert(pow10(39) == 1_000_000_000_000_000_000_000_000_000_000_000_000_000) by {
        reveal_with_fuel(pow10, 40);
    }
    lemma_digits_bound(n as nat, 39);
}

/// The number of decimal digits of a number.
pub fn decimal_width(n: u128) -> (width: usize)
    ensures
        width == digits(n as nat),
        1 <= width <= 39,
{
    let mut width: usize = 1;
    let mut rest = n;
    proof {
        lemma_digits_of_u128(n);
    }
    while rest >= 10
        invariant
            digits(n as nat) == digits(rest as nat) + width - 1,
            1 <= width,
            digits(n as nat) <= 39,
        decreases rest,
    {
        rest = rest / 10;
        width += 1;
    }
    width
}

/// The text of one decimal digit.
fn digit_str(digit: u128) -> (text: &'static str)
    requires
        digit < 10,
    ensures
        text@ == seq![digit_char(digit as nat)],
{
    proof {
        reveal_strlit("0");
        reveal_strlit("1");
        reveal_strlit("2");
        reveal_strlit("3");
        reveal_strlit("4");
        reveal_strlit("5");
        reveal_strlit("6");
        reveal_strlit("7");
        reveal_strlit("8");
        reveal_strlit("9");
    }
    let text = if digit == 0 {
        "0"
    } else if digit == 1 {
        "1"
    } else if digit == 2 {
        "2"
    } else if digit == 3 {
        "3"
    } else if digit == 4 {
        "4"
    } else if digit == 5 {
        "5"
    } else if digit == 6 {
        "6"
    } else if digit == 7 {
        "7"
    } else if digit == 8 {
        "8"
    } else {
        "9"
    };
    assert(text@ =~= seq![digit_char(digit as nat)]);
    text
}

/// A number in decimal digits.
pub fn decimal_string(n: u128) -> (text: String)
    ensures
        text@ == decimal(n as nat),
    decreases n,
{
    if n < 10 {
        String::from_str(digit_str(n))
    } else {
        let mut text = decimal_string(n / 10);
        text.append(digit_str(n % 10));
        text
    }
}

/// `count` times one character, given as a text.
fn filler_string(fill: &str, count: usize) -> (text: String)
    requires
        fill@.len() == 1,
    ensures
        text@ == filler(fill@[0], count as int),
{
    let mut text = String::new();
    let mut i: usize = 0;
    assert(text@ =~= filler(fill@[0], 0));
    while i < count
        invariant
            i <= count,
            fill@.len() == 1,
            text@ == filler(fill@[0], i as int),
        decreases count - i,
    {
        text.append(fill);
        assert(text@ =~= filler(fill@[0], i + 1));
        i += 1;
    }
    text
}

/// A text at the right end of a column of `width` characters that is filled
/// up with spaces or, if `zeros` is set, with zeros.
pub fn text_padded(text: &str, width: usize, zeros: bool) -> (padded: String)
    ensures
        padded@ == pad_left(
            text@,
            width as nat,
            if zeros {
                '0'
            } else {
                ' '
            },
        ),
{
    let len = text.unicode_len();
    proof {
        reveal_strlit("0");
        reveal_strlit(" ");
    }
    let fill = if zeros {
        "0"
    } else {
        " "
    };
    let mut padded = filler_string(
        fill,
        if width > len {
            width - len
        } else {
            0
        },
    );
    padded.append(text);
    padded
}

/// A number at the right end of a column of `width` characters that is
/// filled up with spaces or, if `zeros` is set, with zeros.
pub fn padded(n: u128, width: usize, zeros: bool) -> (padded: String)
    ensures
        padded@ == pad_left(
            decimal(n as nat),
            width as nat,
            if zeros {
                '0'
            } else {
                ' '
            },
        ),
{
    let digits = decimal_string(n);
    text_padded(digits.as_str(), width, zeros)
}

} // verus!
