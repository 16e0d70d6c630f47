//! The decimal text model: what a digit string is worth, and how a number is written.

use vstd::prelude::*;

verus! {

/// An ASCII decimal digit.
pub open spec fn is_digit(c: char) -> bool {
    '0' <= c && c <= '9'
}

/// Every character is a decimal digit.
pub open spec fn all_digits(s: Seq<char>) -> bool {
    forall|i: int| 0 <= i < s.len() ==> is_digit(#[trigger] s[i])
}

/// What one digit character is worth.
pub open spec fn digit_value(c: char) -> nat {
    (c as int - '0' as int) as nat
}

/// The character that writes a digit below ten.
pub open spec fn digit_char(d: nat) -> char {
    ((d + '0' as nat) as u8) as char
}

/// Ten raised to the power `n`.
pub open spec fn pow10(n: nat) -> nat
    decreases n,
{
    if n == 0 {
        1
    } else {
        10 * pow10((n - 1) as nat)
    }
}

/// The number a digit string stands for, most-significant digit first.
pub open spec fn decimal_value(s: Seq<char>) -> nat
    decreases s.len(),
{
    if s.len() == 0 {
        0
    } else {
        decimal_value(s.drop_last()) * 10 + digit_value(s.last())
    }
}

/// The shortest decimal writing of `n`: no leading zero, and "0" for zero.
pub open spec fn decimal_string(n: nat) -> Seq<char>
    decreases n,
{
    if n < 10 {
        seq![digit_char(n)]
    } else {
        decimal_string(n / 10).push(digit_char(n % 10))
    }
}

/// A digit string as `decimal_string` writes it: digits only, and no leading
/// zero unless it is exactly "0".
pub open spec fn is_canonical_decimal(s: Seq<char>) -> bool {
    s.len() >= 1 && all_digits(s) && (s[0] == '0' ==> s.len() == 1)
}

/// The text of a list of digits held least-significant first.
pub open spec fn digits_text(d: Seq<u8>) -> Seq<char> {
    Seq::new(d.len(), |j: int| digit_char(d[d.len() - 1 - j] as nat))
}

/// Ten to the powers up to nine grow, and ten to the ninth is one billion.
pub proof fn lemma_pow10_upto_nine(k: nat)
    requires
        k <= 9,
    ensures
        pow10(k) <= pow10(9),
        pow10(9) == 1_000_000_000,
    decreases 9 - k,
{
    reveal_with_fuel(pow10, 10);
    if k < 9 {
        lemma_pow10_upto_nine(k + 1);
    }
}

/// The value of two digit strings written one after the other.
pub proof fn lemma_decimal_concat(a: Seq<char>, b: Seq<char>)
    ensures
        decimal_value(a + b) == decimal_value(a) * pow10(b.len()) + decimal_value(b),
    decreases b.len(),
{
    if b.len() == 0 {
        assert(a + b =~= a);
        assert(pow10(0) == 1);
        assert(decimal_value(b) == 0);
    } else {
        let bl = b.drop_last();
        assert((a + b).drop_last() =~= a + bl);
        assert((a + b).last() == b.last());
        lemma_decimal_concat(a, bl);
        let va = decimal_value(a);
        let p = pow10(bl.len());
        let vb = decimal_value(bl);
        assert((va * p + vb) * 10 == va * (10 * p) + vb * 10) by (nonlinear_arith);
        assert(pow10(b.len()) == 10 * p);
        assert(decimal_value(b) == vb * 10 + digit_value(b.last()));
        assert(decimal_value(a + b) == decimal_value(a + bl) * 10 + digit_value(b.last()));
    }
}

/// A digit string of length `n` is worth less than ten to the `n`.
pub proof fn lemma_decimal_bound(s: Seq<char>)
    requires
        all_digits(s),
    ensures
        decimal_value(s) < pow10(s.len()),
    decreases s.len(),
{
    if s.len() > 0 {
        let t = s.drop_last();
        assert(all_digits(t)) by {
            assert forall|i: int| 0 <= i < t.len() implies is_digit(#[trigger] t[i]) by {
                assert(t[i] == s[i]);
            }
        }
        assert(is_digit(s[s.len() - 1]));
        lemma_decimal_bound(t);
    }
}

/// A digit string that does not start with a zero is worth at least one.
proof fn lemma_decimal_leading_nonzero(s: Seq<char>)
    requires
        s.len() >= 1,
        all_digits(s),
        s[0] != '0',
    ensures
        decimal_value(s) >= 1,
    decreases s.len(),
{
    assert(is_digit(s[0]));
    if s.len() > 1 {
        let t = s.drop_last();
        assert(all_digits(t)) by {
            assert forall|i: int| 0 <= i < t.len() implies is_digit(#[trigger] t[i]) by {
                assert(t[i] == s[i]);
            }
        }
        assert(t[0] == s[0]);
        lemma_decimal_leading_nonzero(t);
    } else {
        assert(s.drop_last().len() == 0);
    }
}

/// Reading a canonical digit string and writing the number back gives the same string.
pub proof fn lemma_decimal_round_trip(s: Seq<char>)
    requires
        is_canonical_decimal(s),
    ensures
        decimal_string(decimal_value(s)) == s,
    decreases s.len(),
{
    let t = s.drop_last();
    let c = s.last();
    assert(is_digit(s[s.len() - 1]));
    if s.len() == 1 {
        assert(t.len() == 0);
        assert(decimal_value(s) == digit_value(c));
        assert(s =~= seq![c]);
    } else {
        assert(all_digits(t)) by {
            assert forall|i: int| 0 <= i < t.len() implies is_digit(#[trigger] t[i]) by {
                assert(t[i] == s[i]);
            }
        }
        assert(t[0] == s[0]);
        lemma_decimal_leading_nonzero(t);
        lemma_decimal_round_trip(t);
        let v = decimal_value(s);
        assert(v / 10 == decimal_value(t) && v % 10 == digit_value(c));
        assert(s =~= t.push(c));
    }
}

} // verus!
