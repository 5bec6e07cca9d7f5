//! Decimal rendering of unsigned integers into strings.

use vstd::prelude::*;
use vstd::string::StringExecFns;

verus! {

/// The character of the decimal digit `d`.
pub open spec fn digit_char(d: int) -> char {
    (48 + d) as char
}

/// The decimal representation of `n`, most significant digit first,
/// without leading zeros (zero is the single digit `0`).
pub open spec fn decimal(n: nat) -> Seq<char>
    decreases n,
{
    if n < 10 {
        seq![digit_char(n as int)]
    } else {
        decimal(n / 10).push(digit_char((n % 10) as int))
    }
}

/// The one-character string of the decimal digit `d`.
fn digit_str(d: u32) -> (s: &'static str)
    requires
        d < 10,
    ensures
        s@ == seq![digit_char(d as int)],
{
    proof {
        reveal_strlit("0");
        reveal_strlit("1");
        reveal_strlit("2");
        reveal_strlit("3");
        reveal_strlit("4");
        reveal_strlit("5");
        reveal_strlit("6");
        reveal_strlit("7");
        reveal_strlit("8");
        reveal_strlit("9");
    }
    match d {
        0 => "0",
        1 => "1",
        2 => "2",
        3 => "3",
        4 => "4",
        5 => "5",
        6 => "6",
        7 => "7",
        8 => "8",
        _ => "9",
    }
}

/// Appends the decimal representation of `n` to `s`.
pub fn push_decimal(s: &mut String, n: u64)
    ensures
        final(s)@ == old(s)@ + decimal(n as nat),
    decreases n,
{
    if n >= 10 {
        push_decimal(s, n / 10);
    }
    s.append(digit_str((n % 10) as u32));
    proof {
        if n >= 10 {
            assert(decimal(n as nat) == decimal((n / 10) as nat).push(digit_char((n % 10) as int)));
        }
    }
}

/// Whether `c` is a decimal digit.
pub open spec fn is_digit(c: char) -> bool {
    48 <= c as int <= 57
}

/// A decimal representation is a non-empty string of digits.
pub proof fn lemma_decimal_digits(n: nat)
    ensures
        decimal(n).len() >= 1,
        forall|i: int| 0 <= i < decimal(n).len() ==> is_digit(#[trigger] decimal(n)[i]),
    decreases n,
{
    if n >= 10 {
        lemma_decimal_digits(n / 10);
    }
}

/// The number that the decimal digits `s` spell, most significant first.
pub open spec fn digits_value(s: Seq<char>) -> int
    decreases s.len(),
{
    if s.len() == 0 {
        0
    } else {
        digits_value(s.drop_last()) * 10 + (s.last() as int - 48)
    }
}

/// The decimal representation of `n` spells `n` in digits, and it has no
/// leading zero: it begins with `0` only when it is the single digit of zero.
pub proof fn lemma_decimal_value(n: nat)
    ensures
        digits_value(decimal(n)) == n,
        decimal(n)[0] == '0' ==> decimal(n) == seq!['0'] && n == 0,
        forall|i: int| 0 <= i < decimal(n).len() ==> #[trigger] decimal(n)[i] as int - 48 >= 0 && decimal(n)[i]
            as int - 48 <= 9,
    decreases n,
{
    lemma_decimal_digits(n);
    if n >= 10 {
        lemma_decimal_value(n / 10);
        let d = decimal(n);
        assert(d.drop_last() =~= decimal(n / 10));
        assert(d.last() as int - 48 == n % 10);
        assert(d[0] == decimal(n / 10)[0]);
        assert(n / 10 > 0);
        assert(digits_value(d) == digits_value(decimal(n / 10)) * 10 + (d.last() as int - 48));
        vstd::arithmetic::div_mod::lemma_fundamental_div_mod(n as int, 10);
    } else {
        let d = decimal(n);
        assert(d.drop_last() =~= Seq::<char>::empty());
        assert(d.last() as int == 48 + n);
        assert(digits_value(d.drop_last()) == 0);
        assert(digits_value(d) == digits_value(d.drop_last()) * 10 + (d.last() as int - 48));
    }
}

/// Distinct numbers have distinct decimal representations.
pub proof fn lemma_decimal_injective(n: nat, m: nat)
    requires
        decimal(n) == decimal(m),
    ensures
        n == m,
    decreases n,
{
    lemma_decimal_digits(n);
    lemma_decimal_digits(m);
    if n >= 10 {
        lemma_decimal_digits(n / 10);
    }
    if m >= 10 {
        lemma_decimal_digits(m / 10);
    }
    if n >= 10 && m >= 10 {
        let dn = decimal(n);
        assert(dn.drop_last() =~= decimal(n / 10));
        assert(decimal(m).drop_last() =~= decimal(m / 10));
        assert(dn.last() == decimal(m).last());
        assert(digit_char((n % 10) as int) as int == 48 + n % 10);
        assert(digit_char((m % 10) as int) as int == 48 + m % 10);
        assert((n % 10) as int == (m % 10) as int);
        lemma_decimal_injective(n / 10, m / 10);
        vstd::arithmetic::div_mod::lemma_fundamental_div_mod(n as int, 10);
        vstd::arithmetic::div_mod::lemma_fundamental_div_mod(m as int, 10);
    } else if n < 10 && m < 10 {
        assert(decimal(n)[0] == decimal(m)[0]);
        assert(decimal(n) == seq![digit_char(n as int)]);
        assert(decimal(m) == seq![digit_char(m as int)]);
        assert(seq![digit_char(n as int)][0] == digit_char(n as int));
        assert(seq![digit_char(m as int)][0] == digit_char(m as int));
        assert(digit_char(n as int) == digit_char(m as int));
        assert(digit_char(n as int) as int == 48 + n);
        assert(digit_char(m as int) as int == 48 + m);
    } else {
        assert(decimal(n).len() != decimal(m).len());
    }
}

/// Two strings that each start with a run of digits followed by the
/// non-digit `c` split alike at `c`.
pub proof fn lemma_split_at_separator(a1: Seq<char>, r1: Seq<char>, a2: Seq<char>, r2: Seq<char>, c: char)
    requires
        forall|i: int| 0 <= i < a1.len() ==> is_digit(#[trigger] a1[i]),
        forall|i: int| 0 <= i < a2.len() ==> is_digit(#[trigger] a2[i]),
        !is_digit(c),
        a1 + seq![c] + r1 == a2 + seq![c] + r2,
    ensures
        a1 == a2,
        r1 == r2,
{
    let s1 = a1 + seq![c] + r1;
    let s2 = a2 + seq![c] + r2;
    if a1.len() < a2.len() {
        assert(s1[a1.len() as int] == c);
        assert(s2[a1.len() as int] == a2[a1.len() as int]);
    } else if a2.len() < a1.len() {
        assert(s2[a2.len() as int] == c);
        assert(s1[a2.len() as int] == a1[a2.len() as int]);
    } else {
        assert(a1 =~= s1.subrange(0, a1.len() as int));
        assert(a2 =~= s2.subrange(0, a2.len() as int));
        assert(r1 =~= s1.subrange(a1.len() as int + 1, s1.len() as int));
        assert(r2 =~= s2.subrange(a2.len() as int + 1, s2.len() as int));
    }
}

} // verus!
