//! The value model of a limb sequence and the word-level loops built on it.

use vstd::arithmetic::div_mod::{lemma_fundamental_div_mod, lemma_fundamental_div_mod_converse};
use vstd::arithmetic::power2::{lemma2_to64, lemma_pow2_adds, pow2};
use vstd::prelude::*;

verus! {

/// Number of values one limb can hold.
pub open spec fn limb_base() -> nat {
    0x1_0000_0000
}

/// The integer a limb sequence stands for, least-significant limb first.
pub open spec fn limbs_value(s: Seq<u32>) -> nat
    decreases s.len(),
{
    if s.len() == 0 {
        0
    } else {
        s[0] as nat + limb_base() * limbs_value(s.drop_first())
    }
}

/// `limb_base()` raised to the power `n`.
pub open spec fn limb_pow(n: nat) -> nat
    decreases n,
{
    if n == 0 {
        1
    } else {
        limb_base() * limb_pow((n - 1) as nat)
    }
}

/// At least one limb, and no zero limb on top unless it is the only one.
pub open spec fn is_canonical(s: Seq<u32>) -> bool {
    s.len() >= 1 && (s.len() == 1 || s.last() != 0)
}

/// The sequence with its most-significant zero limbs dropped, keeping at least one limb.
pub open spec fn trimmed(s: Seq<u32>) -> Seq<u32>
    decreases s.len(),
{
    if s.len() > 1 && s.last() == 0 {
        trimmed(s.drop_last())
    } else {
        s
    }
}

/// Appending a limb on top adds it at its own weight.
pub proof fn lemma_value_push(s: Seq<u32>, x: u32)
    ensures
        limbs_value(s.push(x)) == limbs_value(s) + x as nat * limb_pow(s.len()),
    decreases s.len(),
{
    if s.len() == 0 {
        assert(s.push(x).drop_first() =~= Seq::<u32>::empty());
        assert(limbs_value(Seq::<u32>::empty()) == 0);
        assert(limb_pow(0) == 1);
        assert(limbs_value(s.push(x)) == x as nat + limb_base() * limbs_value(
            s.push(x).drop_first(),
        ));
    } else {
        let t = s.drop_first();
        assert(s.push(x).drop_first() =~= t.push(x));
        assert(s.push(x)[0] == s[0]);
        assert(limb_pow(s.len()) == limb_base() * limb_pow(t.len()));
        lemma_value_push(t, x);
        let p = limb_pow(t.len());
        assert(limb_base() * (limbs_value(t) + x as nat * p) == limb_base() * limbs_value(t)
            + x as nat * (limb_base() * p)) by (nonlinear_arith);
    }
}

/// The value of a prefix grows by one limb at its weight.
pub proof fn lemma_value_prefix_step(s: Seq<u32>, i: int)
    requires
        0 <= i < s.len(),
    ensures
        limbs_value(s.subrange(0, i + 1)) == limbs_value(s.subrange(0, i)) + s[i] as nat
            * limb_pow(i as nat),
{
    assert(s.subrange(0, i + 1) =~= s.subrange(0, i).push(s[i]));
    lemma_value_push(s.subrange(0, i), s[i]);
}

/// A zero limb on top does not change the value.
pub proof fn lemma_value_drop_zero(s: Seq<u32>)
    requires
        s.len() >= 1,
        s.last() == 0,
    ensures
        limbs_value(s.drop_last()) == limbs_value(s),
{
    assert(s.drop_last().push(0u32) =~= s);
    lemma_value_push(s.drop_last(), 0u32);
}

/// A value is below the weight of the next limb.
pub proof fn lemma_value_bound(s: Seq<u32>)
    ensures
        limbs_value(s) < limb_pow(s.len()),
    decreases s.len(),
{
    if s.len() > 0 {
        let t = s.drop_first();
        lemma_value_bound(t);
        let v = limbs_value(t);
        let p = limb_pow(t.len());
        let x = s[0] as nat;
        assert(x + limb_base() * v < limb_base() * p) by (nonlinear_arith)
            requires
                x < limb_base(),
                v + 1 <= p,
        ;
    }
}

/// A sequence whose top limb is nonzero has a nonzero value.
pub proof fn lemma_value_nonzero(s: Seq<u32>)
    requires
        s.len() >= 1,
        s.last() != 0,
    ensures
        limbs_value(s) >= 1,
    decreases s.len(),
{
    if s.len() > 1 {
        let t = s.drop_first();
        assert(t.last() == s.last());
        lemma_value_nonzero(t);
    }
}

/// The value is zero exactly when every limb is zero.
pub proof fn lemma_value_zero(s: Seq<u32>)
    ensures
        (limbs_value(s) == 0) == (forall|i: int| 0 <= i < s.len() ==> s[i] == 0),
    decreases s.len(),
{
    if s.len() > 0 {
        let t = s.drop_first();
        lemma_value_zero(t);
        assert(limbs_value(s) == s[0] as nat + limb_base() * limbs_value(t));
        if limbs_value(s) == 0 {
            assert forall|i: int| 0 <= i < s.len() implies s[i] == 0 by {
                if i > 0 {
                    assert(s[i] == t[i - 1]);
                }
            }
        }
        if forall|i: int| 0 <= i < s.len() ==> s[i] == 0 {
            assert forall|i: int| 0 <= i < t.len() implies t[i] == 0 by {
                assert(t[i] == s[i + 1]);
            }
        }
    }
}

/// A sequence with some nonzero limb has a nonzero value.
pub proof fn lemma_value_limb_nonzero(s: Seq<u32>, i: int)
    requires
        0 <= i < s.len(),
        s[i] != 0,
    ensures
        limbs_value(s) > 0,
{
    lemma_value_zero(s);
}

/// Two canonical sequences with the same value are the same sequence.
pub proof fn lemma_canonical_unique(a: Seq<u32>, b: Seq<u32>)
    requires
        is_canonical(a),
        is_canonical(b),
        limbs_value(a) == limbs_value(b),
    ensures
        a == b,
    decreases a.len(),
{
    let ta = a.drop_first();
    let tb = b.drop_first();
    assert(limbs_value(a) == a[0] as nat + limb_base() * limbs_value(ta));
    assert(limbs_value(b) == b[0] as nat + limb_base() * limbs_value(tb));
    if a.len() == 1 {
        assert(limbs_value(ta) == 0);
        if b.len() > 1 {
            assert(tb.last() == b.last());
            lemma_value_nonzero(tb);
            assert(false);
        }
        assert(a =~= b);
    } else {
        assert(ta.last() == a.last());
        lemma_value_nonzero(ta);
        if b.len() == 1 {
            assert(limbs_value(tb) == 0);
            assert(false);
        }
        assert(tb.last() == b.last());
        let va = limbs_value(ta);
        let vb = limbs_value(tb);
        let xa = a[0] as nat;
        let xb = b[0] as nat;
        assert(xa == xb && va == vb) by (nonlinear_arith)
            requires
                xa < limb_base(),
                xb < limb_base(),
                xa + limb_base() * va == xb + limb_base() * vb,
        ;
        lemma_canonical_unique(ta, tb);
        assert(a =~= b) by {
            assert(a =~= seq![a[0]] + ta);
            assert(b =~= seq![b[0]] + tb);
        }
    }
}

/// Trimming keeps the value and yields a canonical sequence.
pub proof fn lemma_trimmed(s: Seq<u32>)
    requires
        s.len() >= 1,
    ensures
        is_canonical(trimmed(s)),
        limbs_value(trimmed(s)) == limbs_value(s),
    decreases s.len(),
{
    if s.len() > 1 && s.last() == 0 {
        lemma_value_drop_zero(s);
        lemma_trimmed(s.drop_last());
    }
}

/// One step of a multiply-with-carry loop keeps its invariant.
pub proof fn lemma_mul_carry_step(
    done: nat,
    carry: nat,
    x: nat,
    m: nat,
    p: nat,
    lo: nat,
    hi: nat,
    w: nat,
    prefix: nat,
    z: nat,
)
    requires
        done + carry * w == prefix * m + z,
        p == x * m + carry,
        lo == p % limb_base(),
        hi == p / limb_base(),
    ensures
        (done + lo * w) + hi * (limb_base() * w) == (prefix + x * w) * m + z,
{
    assert(p == lo + limb_base() * hi);
    assert((done + lo * w) + hi * (limb_base() * w) == done + (lo + limb_base() * hi) * w)
        by (nonlinear_arith);
    assert((prefix + x * w) * m + z == prefix * m + z + (x * m) * w) by (nonlinear_arith);
    assert((x * m + carry) * w == (x * m) * w + carry * w) by (nonlinear_arith);
}

/// Multiplies a limb sequence by a word and adds a word, in one carrying pass.
pub fn mul_word_add(a: &Vec<u32>, m: u32, z: u32) -> (r: Vec<u32>)
    ensures
        limbs_value(r@) == limbs_value(a@) * m + z,
        r@.len() >= a@.len(),
        r@.len() <= a@.len() + 1,
        r@.len() >= 1,
{
    let mut r: Vec<u32> = Vec::new();
    let mut carry: u64 = z as u64;
    let n = a.len();
    let mut i: usize = 0;
    assert(a@.subrange(0, 0) =~= Seq::<u32>::empty());
    assert(limbs_value(r@) == 0);
    assert(limb_pow(0) == 1);
    while i < n
        invariant
            n == a@.len(),
            0 <= i <= n,
            r@.len() == i,
            carry < limb_base(),
            limbs_value(r@) + carry * limb_pow(i as nat) == limbs_value(a@.subrange(0, i as int))
                * m + z,
        decreases n - i,
    {
        let x = a[i];
        assert((x as u64) * (m as u64) + carry <= 0xFFFF_FFFF * 0xFFFF_FFFF + 0xFFFF_FFFFu64)
            by (nonlinear_arith)
            requires
                carry < 0x1_0000_0000,
        ;
        let p: u64 = (x as u64) * (m as u64) + carry;
        let lo: u32 = (p % 0x1_0000_0000) as u32;
        let hi: u64 = p / 0x1_0000_0000;
        proof {
            lemma_value_push(r@, lo);
            lemma_value_prefix_step(a@, i as int);
            lemma_mul_carry_step(
                limbs_value(r@),
                carry as nat,
                x as nat,
                m as nat,
                p as nat,
                lo as nat,
                hi as nat,
                limb_pow(i as nat),
                limbs_value(a@.subrange(0, i as int)),
                z as nat,
            );
        }
        r.push(lo);
        carry = hi;
        i = i + 1;
    }
    assert(a@.subrange(0, n as int) =~= a@);
    if carry != 0 || r.len() == 0 {
        proof {
            lemma_value_push(r@, carry as u32);
        }
        r.push(carry as u32);
    }
    r
}

/// A run of `w` zero limbs.
pub open spec fn zero_limbs(w: nat) -> Seq<u32> {
    Seq::new(w, |i: int| 0u32)
}

/// Putting `w` zero limbs underneath multiplies the value by the weight of `w` limbs.
pub proof fn lemma_value_zeros_below(w: nat, s: Seq<u32>)
    ensures
        limbs_value(zero_limbs(w) + s) == limb_pow(w) * limbs_value(s),
    decreases w,
{
    if w == 0 {
        assert(zero_limbs(0) + s =~= s);
        assert(limb_pow(0) == 1);
    } else {
        assert(limb_pow(w) == limb_base() * limb_pow((w - 1) as nat));
        let u = zero_limbs(w) + s;
        assert(u.drop_first() =~= zero_limbs((w - 1) as nat) + s);
        assert(u[0] == 0);
        assert(limbs_value(u) == u[0] as nat + limb_base() * limbs_value(u.drop_first()));
        lemma_value_zeros_below((w - 1) as nat, s);
        let p = limb_pow((w - 1) as nat);
        let v = limbs_value(s);
        assert(limb_base() * (p * v) == (limb_base() * p) * v) by (nonlinear_arith);
    }
}

/// The value splits into the low `w` limbs and the rest at weight `w`.
pub proof fn lemma_value_split(s: Seq<u32>, w: int)
    requires
        0 <= w <= s.len(),
    ensures
        limbs_value(s) == limbs_value(s.subrange(0, w)) + limb_pow(w as nat) * limbs_value(
            s.subrange(w, s.len() as int),
        ),
    decreases w,
{
    if w == 0 {
        assert(s.subrange(0, 0) =~= Seq::<u32>::empty());
        assert(s.subrange(0, s.len() as int) =~= s);
        assert(limbs_value(Seq::<u32>::empty()) == 0);
        assert(limb_pow(0) == 1);
        assert(limbs_value(s.subrange(0, 0)) == 0);
        assert(limbs_value(s) == limbs_value(s.subrange(0, 0)) + limb_pow(0) * limbs_value(
            s.subrange(0, s.len() as int),
        ));
    } else {
        let t = s.drop_first();
        let lo = s.subrange(0, w);
        assert(limbs_value(s) == s[0] as nat + limb_base() * limbs_value(t));
        assert(limbs_value(lo) == lo[0] as nat + limb_base() * limbs_value(lo.drop_first()));
        assert(lo[0] == s[0]);
        assert(limb_pow(w as nat) == limb_base() * limb_pow((w - 1) as nat));
        lemma_value_split(t, w - 1);
        assert(t.subrange(w - 1, t.len() as int) =~= s.subrange(w, s.len() as int));
        assert(s.subrange(0, w).drop_first() =~= t.subrange(0, w - 1));
        let a = limbs_value(t.subrange(0, w - 1));
        let p = limb_pow((w - 1) as nat);
        let v = limbs_value(s.subrange(w, s.len() as int));
        assert(limb_base() * (a + p * v) == limb_base() * a + (limb_base() * p) * v)
            by (nonlinear_arith);
        assert(limbs_value(t) == a + p * v);
        assert(limbs_value(lo) == s[0] as nat + limb_base() * a);
        assert(limbs_value(s) == limbs_value(lo) + limb_pow(w as nat) * v);
    }
}

/// The weight of `n` limbs is the power of two with `32 * n` bits.
pub proof fn lemma_limb_pow_is_pow2(n: nat)
    ensures
        limb_pow(n) == pow2(32 * n),
    decreases n,
{
    if n == 0 {
        lemma2_to64();
    } else {
        lemma_limb_pow_is_pow2((n - 1) as nat);
        lemma_pow2_adds(32, 32 * (n - 1) as nat);
        lemma2_to64();
    }
}

/// Drops the most-significant zero limbs, keeping at least one.
pub fn normalize(v: &mut Vec<u32>)
    requires
        old(v)@.len() >= 1,
    ensures
        final(v)@ == trimmed(old(v)@),
        is_canonical(final(v)@),
        limbs_value(final(v)@) == limbs_value(old(v)@),
{
    proof {
        lemma_trimmed(v@);
    }
    while v.len() > 1 && v[v.len() - 1] == 0
        invariant
            v@.len() >= 1,
            trimmed(v@) == trimmed(old(v)@),
        decreases v@.len(),
    {
        assert(v@.drop_last() == v@.subrange(0, v@.len() - 1));
        v.pop();
    }
}

/// Whether every limb is zero, that is whether the value is zero.
pub fn all_zero(v: &Vec<u32>) -> (r: bool)
    ensures
        r == (limbs_value(v@) == 0),
{
    let mut i: usize = 0;
    while i < v.len()
        invariant
            0 <= i <= v@.len(),
            forall|j: int| 0 <= j < i ==> v@[j] == 0,
        decreases v@.len() - i,
    {
        if v[i] != 0 {
            proof {
                lemma_value_limb_nonzero(v@, i as int);
            }
            return false;
        }
        i = i + 1;
    }
    proof {
        lemma_value_zero(v@);
    }
    true
}

/// One step of a long-division pass keeps its invariant.
proof fn lemma_div_step(x: nat, v_old: nat, v_new: nat, rem: nat, d: nat, q: nat, rem2: nat)
    requires
        d > 0,
        v_old == d * v_new + rem,
        rem * limb_base() + x == q * d + rem2,
    ensures
        x + limb_base() * v_old == d * (q + limb_base() * v_new) + rem2,
{
    assert(limb_base() * (d * v_new + rem) == d * (limb_base() * v_new) + rem * limb_base())
        by (nonlinear_arith);
    assert(d * (q + limb_base() * v_new) == q * d + d * (limb_base() * v_new))
        by (nonlinear_arith);
}

/// Divides a limb sequence in place by a nonzero word, from the top limb down,
/// and returns the remainder.
pub fn divide_by_word(a: &mut Vec<u32>, d: u32) -> (rem: u32)
    requires
        d > 0,
    ensures
        final(a)@.len() == old(a)@.len(),
        limbs_value(final(a)@) == limbs_value(old(a)@) / (d as nat),
        rem as nat == limbs_value(old(a)@) % (d as nat),
{
    let ghost orig = a@;
    let n = a.len();
    let mut rem: u64 = 0;
    let mut i: usize = n;
    assert(orig.subrange(n as int, n as int) =~= Seq::<u32>::empty());
    assert(a@.subrange(n as int, n as int) =~= Seq::<u32>::empty());
    assert(limbs_value(Seq::<u32>::empty()) == 0);
    while i > 0
        invariant
            n == a@.len(),
            n == orig.len(),
            0 <= i <= n,
            d > 0,
            rem < d,
            forall|j: int| 0 <= j < i ==> a@[j] == orig[j],
            limbs_value(orig.subrange(i as int, n as int)) == (d as nat) * limbs_value(
                a@.subrange(i as int, n as int),
            ) + rem,
        decreases i,
    {
        let ghost before = a@;
        i = i - 1;
        let x = a[i];
        assert(rem * 0x1_0000_0000 + (x as u64) < (d as u64) * 0x1_0000_0000) by (nonlinear_arith)
            requires
                rem < d,
                x < 0x1_0000_0000u64,
        ;
        let cur: u64 = rem * 0x1_0000_0000 + x as u64;
        let q: u64 = cur / (d as u64);
        let r2: u64 = cur % (d as u64);
        assert(q < 0x1_0000_0000) by (nonlinear_arith)
            requires
                cur < (d as u64) * 0x1_0000_0000,
                d > 0,
                q == cur / (d as u64),
        ;
        a[i] = q as u32;
        proof {
            assert(orig.subrange(i as int, n as int).drop_first() =~= orig.subrange(
                i + 1,
                n as int,
            ));
            assert(a@.subrange(i as int, n as int).drop_first() =~= before.subrange(
                i + 1,
                n as int,
            ));
            lemma_fundamental_div_mod(cur as int, d as int);
            assert(cur == q * d + r2);
            lemma_div_step(
                x as nat,
                limbs_value(orig.subrange(i + 1, n as int)),
                limbs_value(before.subrange(i + 1, n as int)),
                rem as nat,
                d as nat,
                q as nat,
                r2 as nat,
            );
        }
        rem = r2;
    }
    proof {
        assert(orig.subrange(0, n as int) =~= orig);
        assert(a@.subrange(0, n as int) =~= a@);
        let vo = limbs_value(orig);
        let va = limbs_value(a@);
        assert(vo == (d as nat) * va + rem);
        assert(vo == va * (d as nat) + rem) by (nonlinear_arith)
            requires
                vo == (d as nat) * va + rem,
        ;
        lemma_fundamental_div_mod_converse(
            limbs_value(orig) as int,
            d as int,
            limbs_value(a@) as int,
            rem as int,
        );
    }
    rem as u32
}

} // verus!
