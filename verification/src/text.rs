//! Numbers in texts.

use vstd::prelude::*;

verus! {

/// The ten digits.
pub open spec fn digits() -> Seq<char> {
    seq!['0', '1', '2', '3', '4', '5', '6', '7', '8', '9']
}

/// A number, written in decimal.
pub open spec fn decimal(n: nat) -> Seq<char>
    decreases n,
{
    if n < 10 {
        seq![digits()[n as int]]
    } else {
        decimal(n / 10).push(digits()[(n % 10) as int])
    }
}

/// A digit.
fn digit(n: usize) -> (text: &'static str)
    requires
        n < 10,
    ensures
        text@ == seq![digits()[n as int]],
{
    proof {
        reveal_strlit("0");
        reveal_strlit("1");
        reveal_strlit("2");
        reveal_strlit("3");
        reveal_strlit("4");
        reveal_strlit("5");
        reveal_strlit("6");
        reveal_strlit("7");
        reveal_strlit("8");
        reveal_strlit("9");
    }
    match n {
        0 => "0",
        1 => "1",
        2 => "2",
        3 => "3",
        4 => "4",
        5 => "5",
        6 => "6",
        7 => "7",
        8 => "8",
        _ => "9",
    }
}

/// Writes a number at the end of a text.
pub fn append_decimal(text: &mut String, n: usize)
    ensures
        final(text)@ == old(text)@ + decimal(n as nat),
    decreases n,
{
    if n >= 10 {
        append_decimal(text, n / 10);
    }
    text.append(digit(n % 10));
}

/// A number, written in decimal with zeros in front of it where it has fewer
/// than four digits.
pub open spec fn four_digits(n: nat) -> Seq<char> {
    let text = decimal(n);
    if text.len() < 4 {
        Seq::new((4 - text.len()) as nat, |i: int| '0') + text
    } else {
        text
    }
}

/// How many digits small numbers have.
proof fn lemma_decimal_len(n: nat)
    ensures
        n < 10 ==> decimal(n).len() == 1,
        10 <= n < 100 ==> decimal(n).len() == 2,
        100 <= n < 1000 ==> decimal(n).len() == 3,
        1000 <= n ==> decimal(n).len() >= 4,
{
    reveal_with_fuel(decimal, 5);
}

/// Writes a number at the end of a text, in at least four digits.
pub fn append_four_digits(text: &mut String, n: usize)
    ensures
        final(text)@ == old(text)@ + four_digits(n as nat),
{
    proof {
        reveal_strlit("0");
        lemma_decimal_len(n as nat);
    }
    if n < 1000 {
        text.append("0");
    }
    if n < 100 {
        text.append("0");
    }
    if n < 10 {
        text.append("0");
    }
    append_decimal(text, n);
    assert(text@ =~= old(text)@ + four_digits(n as nat));
}

/// The number that a text of decimal digits stands for.
pub open spec fn number(text: Seq<char>) -> int
    decreases text.len(),
{
    if text.len() == 0 {
        0
    } else {
        10 * number(text.drop_last()) + (text.last() as int - '0' as int)
    }
}

/// Whether a text consists of decimal digits, one at least.
pub open spec fn is_digits(text: Seq<char>) -> bool {
    text.len() > 0 && forall|i: int|
        0 <= i < text.len() ==> '0' as int <= #[trigger] text[i] as int <= '9' as int
}

/// A digit stands for its value.
proof fn lemma_digit(n: nat)
    requires
        n < 10,
    ensures
        digits()[n as int] as int == '0' as int + n,
{
    let d = digits();
    assert(d[0] == '0' && d[1] == '1' && d[2] == '2' && d[3] == '3' && d[4] == '4' && d[5] == '5'
        && d[6] == '6' && d[7] == '7' && d[8] == '8' && d[9] == '9');
}

/// A number that was written in decimal reads back, and only zero begins with
/// a zero.
pub proof fn law_decimal_reads_back(n: nat)
    ensures
        is_digits(decimal(n)),
        number(decimal(n)) == n,
        n > 0 ==> decimal(n)[0] != '0',
        n == 0 ==> decimal(n).len() == 1,
    decreases n,
{
    reveal_with_fuel(number, 2);
    if n < 10 {
        lemma_digit(n);
        assert(decimal(n).drop_last() =~= seq![]);
    } else {
        law_decimal_reads_back(n / 10);
        lemma_digit(n % 10);
        assert(decimal(n).drop_last() =~= decimal(n / 10));
    }
}

/// Zeros in front of a number do not change it.
proof fn lemma_zeros_in_front(zeros: nat, text: Seq<char>)
    ensures
        number(Seq::new(zeros, |i: int| '0') + text) == number(text),
    decreases zeros, text.len(),
{
    let front = Seq::new(zeros, |i: int| '0');
    if text.len() > 0 {
        lemma_zeros_in_front(zeros, text.drop_last());
        assert((front + text).drop_last() =~= front + text.drop_last());
    } else if zeros > 0 {
        lemma_zeros_in_front((zeros - 1) as nat, text);
        assert((front + text).drop_last() =~= Seq::new((zeros - 1) as nat, |i: int| '0') + text);
    } else {
        assert(front + text =~= text);
    }
}

/// A number that was written in at least four digits reads back. It has four
/// digits, or more of which the first is no zero.
pub proof fn law_four_digits_read_back(n: nat)
    ensures
        is_digits(four_digits(n)),
        number(four_digits(n)) == n,
        four_digits(n).len() >= 4,
        four_digits(n).len() > 4 ==> four_digits(n)[0] != '0',
{
    law_decimal_reads_back(n);
    lemma_decimal_len(n);
    if decimal(n).len() < 4 {
        lemma_zeros_in_front((4 - decimal(n).len()) as nat, decimal(n));
    }
}

} // verus!
