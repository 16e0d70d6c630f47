//! Algebraic laws of the operations, stated over what each operation ensures.
//!
//! Each law takes the values involved together with the facts that the
//! operations' own contracts give about them, and concludes that two results
//! are the same limb sequence.

use crate::bigint::{and_limbs, BigInt};
use crate::decimal::{decimal_string, decimal_value, is_canonical_decimal, lemma_decimal_round_trip};
use crate::limbs::{is_canonical, lemma_canonical_unique, limb_base, limbs_value, trimmed};
use vstd::arithmetic::power2::{lemma_pow2_pos, pow2};
use vstd::prelude::*;

verus! {

/// Two canonical values with the same number have the same limbs.
pub proof fn lemma_equal_values(x: BigInt, y: BigInt)
    requires
        is_canonical(x.limbs()),
        is_canonical(y.limbs()),
        x@ == y@,
    ensures
        x.limbs() == y.limbs(),
{
    lemma_canonical_unique(x.limbs(), y.limbs());
}

/// A canonical value of zero is the single zero limb.
pub proof fn lemma_zero_limbs(x: BigInt)
    requires
        is_canonical(x.limbs()),
        x@ == 0,
    ensures
        x.limbs() == seq![0u32],
{
    let z = seq![0u32];
    assert(z.drop_first() =~= Seq::<u32>::empty());
    assert(limbs_value(z) == 0 + limb_base() * limbs_value(z.drop_first()));
    lemma_canonical_unique(x.limbs(), z);
}

/// Reading a canonical decimal string and writing the number back gives the same string.
pub proof fn lemma_round_trip(s: Seq<char>, x: BigInt)
    requires
        is_canonical_decimal(s),
        x@ == decimal_value(s),
    ensures
        decimal_string(x@) == s,
{
    lemma_decimal_round_trip(s);
}

/// Adding zero gives the value back.
pub proof fn lemma_add_zero(x: BigInt, zero: BigInt, sum: BigInt)
    requires
        is_canonical(x.limbs()),
        is_canonical(sum.limbs()),
        zero@ == 0,
        sum@ == x@ + zero@,
    ensures
        sum.limbs() == x.limbs(),
{
    lemma_equal_values(sum, x);
}

/// Addition does not depend on the order of its operands.
pub proof fn lemma_add_commutative(a: BigInt, b: BigInt, ab: BigInt, ba: BigInt)
    requires
        is_canonical(ab.limbs()),
        is_canonical(ba.limbs()),
        ab@ == a@ + b@,
        ba@ == b@ + a@,
    ensures
        ab.limbs() == ba.limbs(),
{
    lemma_equal_values(ab, ba);
}

/// Addition does not depend on how three operands are grouped.
pub proof fn lemma_add_associative(
    a: BigInt,
    b: BigInt,
    c: BigInt,
    ab: BigInt,
    ab_c: BigInt,
    bc: BigInt,
    a_bc: BigInt,
)
    requires
        is_canonical(ab_c.limbs()),
        is_canonical(a_bc.limbs()),
        ab@ == a@ + b@,
        ab_c@ == ab@ + c@,
        bc@ == b@ + c@,
        a_bc@ == a@ + bc@,
    ensures
        ab_c.limbs() == a_bc.limbs(),
{
    lemma_equal_values(ab_c, a_bc);
}

/// Multiplication does not depend on the order of its operands.
pub proof fn lemma_mul_commutative(a: BigInt, b: BigInt, ab: BigInt, ba: BigInt)
    requires
        is_canonical(ab.limbs()),
        is_canonical(ba.limbs()),
        ab@ == a@ * b@,
        ba@ == b@ * a@,
    ensures
        ab.limbs() == ba.limbs(),
{
    assert(a@ * b@ == b@ * a@) by (nonlinear_arith);
    lemma_equal_values(ab, ba);
}

/// Multiplication does not depend on how three operands are grouped.
pub proof fn lemma_mul_associative(
    a: BigInt,
    b: BigInt,
    c: BigInt,
    ab: BigInt,
    ab_c: BigInt,
    bc: BigInt,
    a_bc: BigInt,
)
    requires
        is_canonical(ab_c.limbs()),
        is_canonical(a_bc.limbs()),
        ab@ == a@ * b@,
        ab_c@ == ab@ * c@,
        bc@ == b@ * c@,
        a_bc@ == a@ * bc@,
    ensures
        ab_c.limbs() == a_bc.limbs(),
{
    assert((a@ * b@) * c@ == a@ * (b@ * c@)) by (nonlinear_arith);
    lemma_equal_values(ab_c, a_bc);
}

/// Multiplying by one gives the value back.
pub proof fn lemma_mul_one(x: BigInt, one: BigInt, product: BigInt)
    requires
        is_canonical(x.limbs()),
        is_canonical(product.limbs()),
        one@ == 1,
        product@ == x@ * one@,
    ensures
        product.limbs() == x.limbs(),
{
    lemma_equal_values(product, x);
}

/// Multiplying by zero gives the single zero limb.
pub proof fn lemma_mul_zero(x: BigInt, zero: BigInt, product: BigInt)
    requires
        is_canonical(product.limbs()),
        zero@ == 0,
        product@ == x@ * zero@,
    ensures
        product.limbs() == seq![0u32],
{
    lemma_zero_limbs(product);
}

/// Shifting left by `k` bits is multiplying by two to the `k`.
pub proof fn lemma_shift_left_is_mul(x: BigInt, k: u32, shifted: BigInt, power: BigInt, product: BigInt)
    requires
        is_canonical(shifted.limbs()),
        is_canonical(product.limbs()),
        shifted@ == x@ * pow2(k as nat),
        power@ == pow2(k as nat),
        product@ == x@ * power@,
    ensures
        shifted.limbs() == product.limbs(),
{
    lemma_equal_values(shifted, product);
}

/// Shifting left and then right by the same count gives the value back.
pub proof fn lemma_shift_round_trip(x: BigInt, k: u32, up: BigInt, down: BigInt)
    requires
        is_canonical(x.limbs()),
        is_canonical(down.limbs()),
        up@ == x@ * pow2(k as nat),
        down@ == up@ / pow2(k as nat),
    ensures
        down.limbs() == x.limbs(),
{
    lemma_pow2_pos(k as nat);
    let p = pow2(k as nat);
    assert((x@ * p) / p == x@) by (nonlinear_arith)
        requires
            p > 0,
    ;
    lemma_equal_values(down, x);
}

/// Shifting right by at least the bit length of the value gives the single zero limb.
pub proof fn lemma_shift_right_saturates(x: BigInt, k: u32, shifted: BigInt)
    requires
        is_canonical(shifted.limbs()),
        x@ < pow2(k as nat),
        shifted@ == x@ / pow2(k as nat),
    ensures
        shifted.limbs() == seq![0u32],
{
    assert(x@ / pow2(k as nat) == 0) by (nonlinear_arith)
        requires
            x@ < pow2(k as nat),
    ;
    lemma_zero_limbs(shifted);
}

/// AND with zero gives the single zero limb.
pub proof fn lemma_and_zero(x: BigInt, zero: BigInt)
    requires
        is_canonical(x.limbs()),
        zero.limbs() == seq![0u32],
    ensures
        trimmed(and_limbs(x.limbs(), zero.limbs())) == seq![0u32],
{
    let a = and_limbs(x.limbs(), zero.limbs());
    let x0 = x.limbs()[0];
    assert(x0 & 0 == 0) by (bit_vector);
    assert(a =~= seq![0u32]);
}

} // verus!
