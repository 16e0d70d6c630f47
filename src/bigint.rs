//! The big integer type and its operations.

use crate::decimal::{
    all_digits, decimal_string, decimal_value, digit_char, digit_value, digits_text, is_digit,
    lemma_decimal_bound, lemma_decimal_concat, lemma_pow10_upto_nine,
};
use crate::limbs::{
    all_zero, divide_by_word, is_canonical, lemma_limb_pow_is_pow2, lemma_mul_carry_step,
    lemma_value_bound, lemma_value_nonzero, lemma_value_prefix_step, lemma_value_push,
    lemma_value_split, lemma_value_zero, lemma_value_zeros_below, limb_base, limb_pow,
    limbs_value, mul_word_add, normalize, trimmed, zero_limbs,
};
use itertools::{EitherOrBoth, Itertools};
use vstd::arithmetic::div_mod::{
    lemma_basic_div, lemma_div_denominator, lemma_fundamental_div_mod_converse,
};
use vstd::arithmetic::power2::{
    lemma2_to64, lemma_pow2_adds, lemma_pow2_pos, lemma_pow2_strictly_increases, pow2,
};
use vstd::bits::{lemma_u32_pow2_no_overflow, lemma_u32_shl_is_mul};
use vstd::prelude::*;

verus! {

/// Why a digit string could not be read.
#[derive(Debug, Clone, Copy, PartialEq, Eq)]
pub enum ParseError {
    /// The string holds no character.
    EmptyInput,
    /// Some character is not an ASCII decimal digit.
    InvalidDigit,
}

/// An unsigned integer of any size, held as 32-bit limbs, least-significant first,
/// always in canonical form.
#[derive(Debug)]
pub struct BigInt {
    number: Vec<u32>,
}

/// Relies on `String::push`: appends one character at the end.
#[verifier::external_body]
fn push_char(s: &mut String, c: char)
    ensures
        final(s)@ == old(s)@.push(c),
{
    s.push(c);
}

/// Relies on `itertools::Itertools::zip_longest`: walks both sequences in step,
/// yielding `Both` while each has an item left and then `Left` or `Right` for the
/// items of the longer one.
#[verifier::external_body]
fn zip_limbs(a: &Vec<u32>, b: &Vec<u32>) -> (r: Vec<(Option<u32>, Option<u32>)>)
    ensures
        r@.len() == if a@.len() >= b@.len() {
            a@.len()
        } else {
            b@.len()
        },
        forall|i: int|
            0 <= i < r@.len() ==> (#[trigger] r@[i]).0 == (if i < a@.len() {
                Some(a@[i])
            } else {
                None
            }) && r@[i].1 == (if i < b@.len() {
                Some(b@[i])
            } else {
                None
            }),
{
    a.iter().zip_longest(b.iter()).map(|e| match e {
        EitherOrBoth::Both(x, y) => (Some(*x), Some(*y)),
        EitherOrBoth::Left(x) => (Some(*x), None),
        EitherOrBoth::Right(y) => (None, Some(*y)),
    }).collect()
}

/// The limbs padded with zero limbs on top up to length `n`.
spec fn padded(s: Seq<u32>, n: nat) -> Seq<u32> {
    Seq::new(n, |i: int| if i < s.len() { s[i] } else { 0u32 })
}

/// Zero limbs on top do not change the value.
proof fn lemma_padded_value(s: Seq<u32>, n: nat)
    requires
        s.len() <= n,
    ensures
        limbs_value(padded(s, n)) == limbs_value(s),
{
    let p = padded(s, n);
    lemma_value_split(p, s.len() as int);
    assert(p.subrange(0, s.len() as int) =~= s);
    let top = p.subrange(s.len() as int, n as int);
    lemma_value_zero(top);
    assert forall|i: int| 0 <= i < top.len() implies top[i] == 0 by {
        assert(top[i] == p[s.len() + i]);
    }
}

/// The limb-wise AND of two sequences, over the length of the shorter one.
pub open spec fn and_limbs(a: Seq<u32>, b: Seq<u32>) -> Seq<u32> {
    Seq::new(
        if a.len() <= b.len() {
            a.len()
        } else {
            b.len()
        },
        |i: int| a[i] & b[i],
    )
}

/// The power of two below 2^32 that a bit count names, as a word.
fn word_pow2(b: u32) -> (r: u32)
    requires
        b < 32,
    ensures
        r as nat == pow2(b as nat),
        r > 0,
{
    proof {
        lemma_u32_pow2_no_overflow(b as nat);
        lemma_u32_shl_is_mul(1, b);
    }
    1u32 << b
}

/// Copies the limbs from index `from` on.
fn limbs_from(v: &Vec<u32>, from: usize) -> (r: Vec<u32>)
    requires
        from <= v@.len(),
    ensures
        r@ == v@.subrange(from as int, v@.len() as int),
{
    let mut r: Vec<u32> = Vec::new();
    let mut i: usize = from;
    while i < v.len()
        invariant
            from <= i <= v@.len(),
            r@ == v@.subrange(from as int, i as int),
        decreases v@.len() - i,
    {
        r.push(v[i]);
        i = i + 1;
        assert(r@ =~= v@.subrange(from as int, i as int));
    }
    r
}

/// The value of the digits `from..to`, at most nine of them.
fn group_value(digits: &Vec<u8>, from: usize, to: usize, Ghost(chars): Ghost<Seq<char>>) -> (r: u32)
    requires
        from <= to <= digits@.len(),
        to - from <= 9,
        digits@.len() == chars.len(),
        all_digits(chars),
        forall|j: int| 0 <= j < chars.len() ==> digits@[j] as nat == digit_value(chars[j]),
    ensures
        r as nat == decimal_value(chars.subrange(from as int, to as int)),
{
    let mut v: u32 = 0;
    let mut j: usize = from;
    assert(chars.subrange(from as int, from as int) =~= Seq::<char>::empty());
    while j < to
        invariant
            from <= j <= to,
            to <= digits@.len(),
            to - from <= 9,
            digits@.len() == chars.len(),
            all_digits(chars),
            forall|k: int| 0 <= k < chars.len() ==> digits@[k] as nat == digit_value(chars[k]),
            v as nat == decimal_value(chars.subrange(from as int, j as int)),
        decreases to - j,
    {
        let ghost part = chars.subrange(from as int, j as int);
        let ghost next = chars.subrange(from as int, j + 1);
        proof {
            assert(all_digits(part)) by {
                assert forall|k: int| 0 <= k < part.len() implies is_digit(#[trigger] part[k]) by {
                    assert(part[k] == chars[from + k]);
                }
            }
            lemma_decimal_bound(part);
            lemma_pow10_upto_nine(part.len() + 1);
            lemma_pow10_upto_nine(part.len());
            assert(is_digit(chars[j as int]));
            assert(next.drop_last() =~= part);
            assert(next.last() == chars[j as int]);
        }
        v = v * 10 + digits[j] as u32;
        j = j + 1;
    }
    v
}

/// Multiplies the limbs by one billion and adds one nine-digit group.
fn perform_multiplication(number: &mut Vec<u32>, z: u32)
    ensures
        limbs_value(final(number)@) == limbs_value(old(number)@) * 1_000_000_000 + z,
        old(number)@.len() <= final(number)@.len(),
        final(number)@.len() <= old(number)@.len() + 1,
        final(number)@.len() >= 1,
{
    let r = mul_word_add(number, 1_000_000_000, z);
    *number = r;
}

/// Turns a list of digit values into canonical limbs, nine digits at a time.
fn change_number_base(digits: &Vec<u8>, Ghost(chars): Ghost<Seq<char>>) -> (r: Vec<u32>)
    requires
        digits@.len() >= 1,
        digits@.len() == chars.len(),
        all_digits(chars),
        forall|j: int| 0 <= j < chars.len() ==> digits@[j] as nat == digit_value(chars[j]),
    ensures
        is_canonical(r@),
        limbs_value(r@) == decimal_value(chars),
{
    let n = digits.len();
    let mut first: usize = n % 9;
    if first == 0 {
        first = 9;
    }
    let g = group_value(digits, 0, first, Ghost(chars));
    let mut acc: Vec<u32> = vec![g];
    assert(acc@.drop_first() =~= Seq::<u32>::empty());
    assert(limbs_value(acc@) == g as nat + limb_base() * limbs_value(acc@.drop_first()));
    let mut cursor: usize = first;
    while cursor < n
        invariant
            n == digits@.len(),
            n == chars.len(),
            cursor <= n,
            (n - cursor) % 9 == 0,
            all_digits(chars),
            forall|j: int| 0 <= j < chars.len() ==> digits@[j] as nat == digit_value(chars[j]),
            acc@.len() >= 1,
            limbs_value(acc@) == decimal_value(chars.subrange(0, cursor as int)),
        decreases n - cursor,
    {
        let g = group_value(digits, cursor, cursor + 9, Ghost(chars));
        perform_multiplication(&mut acc, g);
        proof {
            let lo = chars.subrange(0, cursor as int);
            let hi = chars.subrange(cursor as int, cursor + 9);
            assert(lo + hi =~= chars.subrange(0, cursor + 9));
            lemma_decimal_concat(lo, hi);
            lemma_pow10_upto_nine(9);
        }
        cursor = cursor + 9;
    }
    assert(chars.subrange(0, n as int) =~= chars);
    normalize(&mut acc);
    acc
}

impl BigInt {
    /// The decimal digits of the value, least-significant first; none for zero.
    fn convert_to_decimal(&self) -> (r: Vec<u8>)
        ensures
            self@ == 0 ==> r@.len() == 0,
            self@ > 0 ==> digits_text(r@) == decimal_string(self@),
            forall|j: int| 0 <= j < r@.len() ==> r@[j] < 10,
    {
        let ghost n0 = self@;
        let mut result: Vec<u8> = Vec::new();
        let mut copy_self = limbs_from(&self.number, 0);
        assert(self.number@.subrange(0, self.number@.len() as int) =~= self.number@);
        assert(digits_text(result@) =~= Seq::<char>::empty());
        while !all_zero(&copy_self)
            invariant
                n0 == 0 ==> result@.len() == 0,
                limbs_value(copy_self@) > 0 ==> decimal_string(n0) == decimal_string(
                    limbs_value(copy_self@),
                ) + digits_text(result@),
                limbs_value(copy_self@) == 0 && n0 > 0 ==> decimal_string(n0) == digits_text(
                    result@,
                ),
                n0 == 0 ==> limbs_value(copy_self@) == 0,
                forall|j: int| 0 <= j < result@.len() ==> result@[j] < 10,
            decreases limbs_value(copy_self@),
        {
            let ghost cur = limbs_value(copy_self@);
            let ghost before = result@;
            let d = divide_by_word(&mut copy_self, 10);
            result.push(d as u8);
            proof {
                let c = digit_char(d as nat);
                assert(digits_text(result@) =~= seq![c] + digits_text(before));
                if cur >= 10 {
                    assert(decimal_string(cur) == decimal_string(cur / 10).push(c));
                    assert(decimal_string(cur / 10).push(c) + digits_text(before)
                        =~= decimal_string(cur / 10) + digits_text(result@));
                } else {
                    assert(decimal_string(cur) == seq![c]);
                }
            }
        }
        result
    }

    /// The shortest decimal writing of the value; zero is written "0".
    pub fn to_decimal_string(&self) -> (r: String)
        ensures
            r@ == decimal_string(self@),
    {
        let digits = self.convert_to_decimal();
        let mut out = String::new();
        if digits.len() == 0 {
            assert(self@ == 0) by {
                if self@ > 0 {
                    assert(decimal_string(self@).len() >= 1);
                    assert(digits_text(digits@).len() == 0);
                }
            }
            push_char(&mut out, '0');
            assert(out@ =~= decimal_string(0));
            return out;
        }
        let n = digits.len();
        let mut k: usize = n;
        while k > 0
            invariant
                n == digits@.len(),
                0 <= k <= n,
                forall|j: int| 0 <= j < n ==> digits@[j] < 10,
                out@ == digits_text(digits@).subrange(0, (n - k) as int),
            decreases k,
        {
            k = k - 1;
            let c = (digits[k] + 48) as char;
            assert(c == digit_char(digits@[k as int] as nat));
            push_char(&mut out, c);
            assert(out@ =~= digits_text(digits@).subrange(0, (n - k) as int));
        }
        assert(digits_text(digits@).subrange(0, n as int) =~= digits_text(digits@));
        out
    }

    /// A copy of the value.
    fn duplicate(&self) -> (r: BigInt)
        ensures
            r.limbs() == self.limbs(),
    {
        proof {
            use_type_invariant(self);
        }
        let number = limbs_from(&self.number, 0);
        assert(number@ =~= self.number@);
        BigInt { number }
    }

    /// The limbs, least-significant first.
    pub fn to_limbs(&self) -> (r: Vec<u32>)
        ensures
            r@ == self.limbs(),
    {
        let r = limbs_from(&self.number, 0);
        assert(r@ =~= self.number@);
        r
    }

    /// Whether the value is zero.
    pub fn is_zero(&self) -> (r: bool)
        ensures
            r == (self@ == 0),
    {
        proof {
            use_type_invariant(self);
            let s = self.number@;
            assert(limbs_value(s) == s[0] as nat + limb_base() * limbs_value(s.drop_first()));
            if s.len() > 1 {
                assert(s.drop_first().last() == s.last());
                lemma_value_nonzero(s.drop_first());
            } else {
                assert(s.drop_first().len() == 0);
            }
        }
        self.number.len() == 1 && self.number[0] == 0
    }

    /// Whether the lowest bit of the value is set.
    fn lowest_bit(&self) -> (r: bool)
        ensures
            r == (self@ % 2 == 1),
    {
        proof {
            use_type_invariant(self);
        }
        let x = self.number[0];
        proof {
            let s = self.number@;
            assert(limbs_value(s) == s[0] as nat + limb_base() * limbs_value(s.drop_first()));
            assert((x & 1) == x % 2) by (bit_vector);
        }
        x & 1 == 1
    }

    /// The limb-wise AND of two values: limbs present in only one of them count as zero.
    pub fn and(&self, other: &BigInt) -> (r: BigInt)
        ensures
            r.limbs() == trimmed(and_limbs(self.limbs(), other.limbs())),
            is_canonical(r.limbs()),
    {
        proof {
            use_type_invariant(self);
            use_type_invariant(other);
        }
        let n = if self.number.len() <= other.number.len() {
            self.number.len()
        } else {
            other.number.len()
        };
        let ghost target = and_limbs(self.number@, other.number@);
        let mut number: Vec<u32> = Vec::new();
        let mut i: usize = 0;
        while i < n
            invariant
                n == target.len(),
                n <= self.number@.len(),
                n <= other.number@.len(),
                target == and_limbs(self.number@, other.number@),
                0 <= i <= n,
                number@ == target.subrange(0, i as int),
            decreases n - i,
        {
            number.push(self.number[i] & other.number[i]);
            i = i + 1;
            assert(number@ =~= target.subrange(0, i as int));
        }
        assert(target.subrange(0, n as int) =~= target);
        normalize(&mut number);
        BigInt { number }
    }

    /// The value multiplied by two to the power `bits`.
    pub fn shift_left(&self, bits: u32) -> (r: BigInt)
        ensures
            r@ == self@ * pow2(bits as nat),
            is_canonical(r.limbs()),
    {
        proof {
            use_type_invariant(self);
        }
        let w: u32 = bits / 32;
        let b: u32 = bits % 32;
        let m = word_pow2(b);
        let t = mul_word_add(&self.number, m, 0);
        let mut number: Vec<u32> = Vec::new();
        let mut i: u32 = 0;
        while i < w
            invariant
                0 <= i <= w,
                number@ == zero_limbs(i as nat),
            decreases w - i,
        {
            number.push(0);
            i = i + 1;
            assert(number@ =~= zero_limbs(i as nat));
        }
        let mut j: usize = 0;
        while j < t.len()
            invariant
                0 <= j <= t@.len(),
                number@ == zero_limbs(w as nat) + t@.subrange(0, j as int),
            decreases t@.len() - j,
        {
            number.push(t[j]);
            j = j + 1;
            assert(number@ =~= zero_limbs(w as nat) + t@.subrange(0, j as int));
        }
        proof {
            assert(t@.subrange(0, t@.len() as int) =~= t@);
            lemma_value_zeros_below(w as nat, t@);
            lemma_limb_pow_is_pow2(w as nat);
            lemma_pow2_adds(32 * w as nat, b as nat);
            assert(bits as nat == 32 * w as nat + b as nat);
            let v = limbs_value(self.number@);
            assert(pow2(32 * w as nat) * (v * pow2(b as nat)) == v * (pow2(32 * w as nat) * pow2(
                b as nat,
            ))) by (nonlinear_arith);
        }
        normalize(&mut number);
        BigInt { number }
    }

    /// The value divided by two to the power `bits`, rounded down.
    pub fn shift_right(&self, bits: u32) -> (r: BigInt)
        ensures
            r@ == self@ / pow2(bits as nat),
            is_canonical(r.limbs()),
    {
        proof {
            use_type_invariant(self);
        }
        let w: usize = (bits / 32) as usize;
        let b: u32 = bits % 32;
        let n = self.number.len();
        let ghost v = limbs_value(self.number@);
        proof {
            lemma_pow2_pos(bits as nat);
            lemma_pow2_pos(b as nat);
            lemma_pow2_pos(32 * w as nat);
            lemma_pow2_adds(32 * w as nat, b as nat);
            assert(bits as nat == 32 * w as nat + b as nat);
        }
        if w >= n {
            proof {
                lemma_value_bound(self.number@);
                lemma_limb_pow_is_pow2(n as nat);
                if 32 * n < bits {
                    lemma_pow2_strictly_increases(32 * n as nat, bits as nat);
                }
                lemma_basic_div(v as int, pow2(bits as nat) as int);
            }
            return BigInt::from_word(0);
        }
        let mut t = limbs_from(&self.number, w);
        proof {
            lemma_value_split(self.number@, w as int);
            lemma_value_bound(self.number@.subrange(0, w as int));
            lemma_limb_pow_is_pow2(w as nat);
            let lo = limbs_value(self.number@.subrange(0, w as int));
            let q = limbs_value(t@);
            let d = pow2(32 * w as nat);
            assert(v == q * d + lo) by (nonlinear_arith)
                requires
                    v == lo + d * q,
            ;
            lemma_fundamental_div_mod_converse(
                v as int,
                pow2(32 * w as nat) as int,
                limbs_value(t@) as int,
                limbs_value(self.number@.subrange(0, w as int)) as int,
            );
        }
        let m = word_pow2(b);
        let _ = divide_by_word(&mut t, m);
        proof {
            lemma_div_denominator(v as int, pow2(32 * w as nat) as int, pow2(b as nat) as int);
        }
        normalize(&mut t);
        BigInt { number: t }
    }

    /// The product of two values, by doubling one and halving the other.
    pub fn mul(&self, other: &BigInt) -> (r: BigInt)
        ensures
            r@ == self@ * other@,
            is_canonical(r.limbs()),
    {
        let mut mul_op_result = BigInt::from_word(0);
        let mut copy_self = self.duplicate();
        let mut copy_rhs = other.duplicate();
        proof {
            lemma2_to64();
        }
        while !copy_rhs.is_zero()
            invariant
                mul_op_result@ + copy_self@ * copy_rhs@ == self@ * other@,
                is_canonical(mul_op_result.limbs()),
                pow2(1) == 2,
            decreases copy_rhs@,
        {
            let ghost acc = mul_op_result@;
            let ghost x = copy_self@;
            let ghost y = copy_rhs@;
            if copy_rhs.lowest_bit() {
                mul_op_result = mul_op_result.add(&copy_self);
            }
            copy_self = copy_self.shift_left(1);
            copy_rhs = copy_rhs.shift_right(1);
            proof {
                assert(y == 2 * (y / 2) + y % 2);
                assert(x * y == (x * 2) * (y / 2) + x * (y % 2)) by (nonlinear_arith)
                    requires
                        y == 2 * (y / 2) + y % 2,
                ;
                if y % 2 == 1 {
                    assert(x * (y % 2) == x);
                } else {
                    assert(x * (y % 2) == 0);
                }
            }
        }
        mul_op_result
    }

    /// The sum of two values.
    pub fn add(&self, other: &BigInt) -> (r: BigInt)
        ensures
            r@ == self@ + other@,
            is_canonical(r.limbs()),
    {
        proof {
            use_type_invariant(self);
            use_type_invariant(other);
        }
        let pairs = zip_limbs(&self.number, &other.number);
        let n = pairs.len();
        let ghost pa = padded(self.number@, n as nat);
        let ghost pb = padded(other.number@, n as nat);
        let mut number: Vec<u32> = Vec::new();
        let mut carry: u64 = 0;
        let mut i: usize = 0;
        assert(pa.subrange(0, 0) =~= Seq::<u32>::empty());
        assert(pb.subrange(0, 0) =~= Seq::<u32>::empty());
        assert(limbs_value(Seq::<u32>::empty()) == 0);
        assert(limb_pow(0) == 1);
        while i < n
            invariant
                n == pairs@.len(),
                n == pa.len(),
                n == pb.len(),
                forall|j: int|
                    0 <= j < n ==> (#[trigger] pairs@[j]).0 == (if j < self.number@.len() {
                        Some(self.number@[j])
                    } else {
                        None
                    }) && pairs@[j].1 == (if j < other.number@.len() {
                        Some(other.number@[j])
                    } else {
                        None
                    }),
                pa == padded(self.number@, n as nat),
                pb == padded(other.number@, n as nat),
                0 <= i <= n,
                number@.len() == i,
                carry < limb_base(),
                limbs_value(number@) + carry * limb_pow(i as nat) == limbs_value(
                    pa.subrange(0, i as int),
                ) + limbs_value(pb.subrange(0, i as int)),
            decreases n - i,
        {
            let pair = pairs[i];
            let x: u32 = match pair.0 {
                Some(v) => v,
                None => 0,
            };
            let y: u32 = match pair.1 {
                Some(v) => v,
                None => 0,
            };
            assert(x == pa[i as int] && y == pb[i as int]);
            let sum: u64 = x as u64 + y as u64 + carry;
            let lo: u32 = (sum % 0x1_0000_0000) as u32;
            let hi: u64 = sum / 0x1_0000_0000;
            proof {
                lemma_value_push(number@, lo);
                lemma_value_prefix_step(pa, i as int);
                lemma_value_prefix_step(pb, i as int);
                lemma_mul_carry_step(
                    limbs_value(number@),
                    carry as nat,
                    (x + y) as nat,
                    1,
                    sum as nat,
                    lo as nat,
                    hi as nat,
                    limb_pow(i as nat),
                    limbs_value(pa.subrange(0, i as int)) + limbs_value(pb.subrange(0, i as int)),
                    0,
                );
                assert((x + y) * limb_pow(i as nat) == x * limb_pow(i as nat) + y * limb_pow(
                    i as nat,
                )) by (nonlinear_arith);
            }
            number.push(lo);
            carry = hi;
            i = i + 1;
        }
        proof {
            assert(pa.subrange(0, n as int) =~= pa);
            assert(pb.subrange(0, n as int) =~= pb);
            lemma_padded_value(self.number@, n as nat);
            lemma_padded_value(other.number@, n as nat);
        }
        if carry != 0 {
            proof {
                lemma_value_push(number@, carry as u32);
            }
            number.push(carry as u32);
        }
        normalize(&mut number);
        BigInt { number }
    }

    /// The limbs, least-significant first.
    pub closed spec fn limbs(&self) -> Seq<u32> {
        self.number@
    }

    #[verifier::type_invariant]
    spec fn canonical(&self) -> bool {
        is_canonical(self.number@)
    }

    /// Reads a non-empty decimal digit string.
    pub fn new(input_number: &str) -> (r: Self)
        requires
            input_number@.len() >= 1,
            all_digits(input_number@),
        ensures
            r@ == decimal_value(input_number@),
            is_canonical(r.limbs()),
    {
        match BigInt::from_decimal_string(input_number) {
            Ok(b) => b,
            Err(_) => {
                assert(false);
                BigInt::from_word(0)
            },
        }
    }

    /// Wraps a single machine word.
    pub fn from_number(number: u32) -> (r: BigInt)
        ensures
            r@ == number as nat,
            r.limbs() == seq![number],
    {
        BigInt::from_word(number)
    }

    /// Wraps a single machine word.
    pub fn from_word(w: u32) -> (r: BigInt)
        ensures
            r@ == w as nat,
            r.limbs() == seq![w],
    {
        let number: Vec<u32> = vec![w];
        assert(number@.drop_first() =~= Seq::<u32>::empty());
        assert(number@ =~= seq![w]);
        assert(limbs_value(number@) == w as nat + limb_base() * limbs_value(number@.drop_first()));
        BigInt { number }
    }

    /// Reads a decimal digit string: empty input and non-digit characters are refused.
    pub fn from_decimal_string(s: &str) -> (r: Result<BigInt, ParseError>)
        ensures
            match r {
                Ok(b) => s@.len() >= 1 && all_digits(s@) && b@ == decimal_value(s@)
                    && is_canonical(b.limbs()),
                Err(ParseError::EmptyInput) => s@.len() == 0,
                Err(ParseError::InvalidDigit) => s@.len() >= 1 && !all_digits(s@),
            },
    {
        broadcast use vstd::string::is_ascii_spec_bytes;

        if s.is_empty() {
            return Err(ParseError::EmptyInput);
        }
        if !s.is_ascii() {
            proof {
                let i = choose|i: int| 0 <= i < s@.len() && !('\0' <= #[trigger] s@[i] <= '\u{7f}');
                assert(!is_digit(s@[i]));
            }
            return Err(ParseError::InvalidDigit);
        }
        let bytes = s.as_bytes();
        let n = bytes.len();
        assert(n == s@.len());
        let mut digits: Vec<u8> = Vec::new();
        let mut i: usize = 0;
        while i < n
            invariant
                n == s@.len(),
                bytes@ == Seq::new(s@.len(), |k: int| s@[k] as u8),
                vstd::string::is_ascii(s),
                0 <= i <= n,
                digits@.len() == i,
                forall|k: int| 0 <= k < i ==> is_digit(#[trigger] s@[k]),
                forall|k: int| 0 <= k < i ==> digits@[k] as nat == digit_value(#[trigger] s@[k]),
            decreases n - i,
        {
            let b = bytes[i];
            assert(s@[i as int] <= '\u{7f}');
            if b < 48 || b > 57 {
                assert(!is_digit(s@[i as int]));
                return Err(ParseError::InvalidDigit);
            }
            digits.push(b - 48);
            i = i + 1;
        }
        let number = change_number_base(&digits, Ghost(s@));
        Ok(BigInt { number })
    }
}

impl View for BigInt {
    type V = nat;

    /// The number the limbs stand for.
    open spec fn view(&self) -> nat {
        limbs_value(self.limbs())
    }
}

} // verus!
