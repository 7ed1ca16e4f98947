//! Texts that clients parse.
use vstd::prelude::*;
use vstd::string::*;

verus! {

/// A decimal digit.
pub open spec fn digit(d: nat) -> char {
    if d == 0 {
        '0'
    } else if d == 1 {
        '1'
    } else if d == 2 {
        '2'
    } else if d == 3 {
        '3'
    } else if d == 4 {
        '4'
    } else if d == 5 {
        '5'
    } else if d == 6 {
        '6'
    } else if d == 7 {
        '7'
    } else if d == 8 {
        '8'
    } else {
        '9'
    }
}

/// A number in decimal notation.
pub open spec fn decimal(n: nat) -> Seq<char>
    decreases n,
{
    if n < 10 {
        seq![digit(n)]
    } else {
        decimal(n / 10).push(digit(n % 10))
    }
}

fn append_digit(text: &mut String, d: u64)
    requires
        d < 10,
    ensures
        final(text)@ == old(text)@.push(digit(d as nat)),
{
    proof {
        reveal_strlit("0");
        reveal_strlit("1");
        reveal_strlit("2");
        reveal_strlit("3");
        reveal_strlit("4");
        reveal_strlit("5");
        reveal_strlit("6");
        reveal_strlit("7");
        reveal_strlit("8");
        reveal_strlit("9");
    }
    let s: &str = match d {
        0 => "0",
        1 => "1",
        2 => "2",
        3 => "3",
        4 => "4",
        5 => "5",
        6 => "6",
        7 => "7",
        8 => "8",
        _ => "9",
    };
    let ghost before = text@;
    text.append(s);
    assert(text@ =~= before.push(digit(d as nat)));
}

/// Append a number in decimal notation.
pub fn append_decimal(text: &mut String, n: u64)
    ensures
        final(text)@ == old(text)@ + decimal(n as nat),
    decreases n,
{
    let ghost before = text@;
    if n >= 10 {
        append_decimal(text, n / 10);
        append_digit(text, n % 10);
    } else {
        append_digit(text, n);
    }
    assert(text@ =~= before + decimal(n as nat));
}

/// Two numbers with one notation are equal.
pub proof fn decimal_is_injective(m: nat, n: nat)
    requires
        decimal(m) == decimal(n),
    ensures
        m == n,
    decreases m,
{
    let a = decimal(m);
    let b = decimal(n);
    lemma_length(m);
    lemma_length(n);
    assert(a.last() == digit(m % 10));
    assert(b.last() == digit(n % 10));
    if m >= 10 {
        assert(a.drop_last() =~= decimal(m / 10));
        assert(b.drop_last() =~= decimal(n / 10));
        decimal_is_injective(m / 10, n / 10);
    }
}

proof fn lemma_length(n: nat)
    ensures
        n < 10 <==> decimal(n).len() == 1,
        decimal(n).len() >= 1,
    decreases n,
{
    if n >= 10 {
        lemma_length(n / 10);
    }
}

/// The notation of a number ends with its last digit, and what stands before it is the
/// notation of the rest.
pub proof fn decimals_end_with_the_last_digit(n: nat, d: nat)
    requires
        d < 10,
    ensures
        decimal(d).len() == 1,
        decimal(d)[0] as int == '0' as int + d,
        n > 0 ==> decimal(10 * n + d).drop_last() == decimal(n),
        n > 0 ==> decimal(10 * n + d).last() as int == '0' as int + d,
{
    if n > 0 {
        assert((10 * n + d) / 10 == n);
        assert((10 * n + d) % 10 == d);
        assert(decimal(10 * n + d).drop_last() =~= decimal(n));
    }
}

} // verus!
