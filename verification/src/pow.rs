//! Facts about powers of two.
use vstd::arithmetic::power2::*;
use vstd::prelude::*;

verus! {

/// The first power of two is one, and each is twice its predecessor.
pub proof fn lemma_pow2_step(e: nat)
    ensures
        pow2(0) == 1,
        pow2(e) >= 1,
        pow2(e + 1) == 2 * pow2(e),
{
    lemma2_to64();
    lemma_pow2_pos(e);
    lemma_pow2_unfold(e + 1);
}

/// Powers of two grow with their exponent.
pub proof fn lemma_pow2_mono(a: nat, b: nat)
    requires
        a <= b,
    ensures
        pow2(a) <= pow2(b),
{
    if a < b {
        lemma_pow2_strictly_increases(a, b);
    }
}

/// A smaller power of two divides a larger one.
pub proof fn lemma_pow2_divides(a: nat, b: nat)
    requires
        a <= b,
    ensures
        pow2(b) % pow2(a) == 0,
{
    lemma_pow2_pos(a);
    lemma_pow2_adds(a, (b - a) as nat);
    vstd::arithmetic::div_mod::lemma_mod_multiples_basic(pow2((b - a) as nat) as int, pow2(a) as int);
    vstd::arithmetic::mul::lemma_mul_is_commutative(pow2(a) as int, pow2((b - a) as nat) as int);
}

/// A multiple of a larger power of two is a multiple of a smaller one.
pub proof fn lemma_multiple_of_smaller(x: nat, a: nat, b: nat)
    requires
        a <= b,
        x % pow2(b) == 0,
    ensures
        x % pow2(a) == 0,
{
    lemma_pow2_pos(a);
    lemma_pow2_pos(b);
    let c = pow2((b - a) as nat) as int;
    lemma_pow2_adds(a, (b - a) as nat);
    vstd::arithmetic::div_mod::lemma_fundamental_div_mod(x as int, pow2(b) as int);
    let q = x as int / pow2(b) as int;
    assert(x as int == (c * q) * pow2(a)) by (nonlinear_arith)
        requires
            x as int == pow2(b) * q,
            pow2(b) == pow2(a) * c,
    ;
    vstd::arithmetic::div_mod::lemma_mod_multiples_basic(c * q, pow2(a) as int);
}

/// The sum of two multiples is a multiple.
pub proof fn lemma_sum_of_multiples(x: nat, y: nat, m: nat)
    requires
        m > 0,
        x % m == 0,
        y % m == 0,
    ensures
        (x + y) % m == 0,
{
    vstd::arithmetic::div_mod::lemma_mod_adds(x as int, y as int, m as int);
    vstd::arithmetic::div_mod::lemma_add_mod_noop(x as int, y as int, m as int);
}

/// Two multiples that differ are at least one multiple apart.
pub proof fn lemma_multiples_apart(x: nat, y: nat, m: nat)
    requires
        m > 0,
        x % m == 0,
        y % m == 0,
        x < y,
    ensures
        x + m <= y,
{
    vstd::arithmetic::div_mod::lemma_fundamental_div_mod(x as int, m as int);
    vstd::arithmetic::div_mod::lemma_fundamental_div_mod(y as int, m as int);
    let (p, q) = (x as int / m as int, y as int / m as int);
    assert(p < q) by (nonlinear_arith)
        requires
            m * p < m * q,
            m > 0,
    ;
    assert(m * p + m <= m * q) by (nonlinear_arith)
        requires
            p < q,
            m > 0,
    ;
}

/// Two to the power `e`, by repeated doubling.
pub fn power_of_two(e: u8) -> (r: u64)
    requires
        pow2(e as nat) <= u64::MAX,
    ensures
        r == pow2(e as nat),
{
    let mut r: u64 = 1;
    let mut i: u8 = 0;
    proof {
        lemma_pow2_step(0);
    }
    while i < e
        invariant
            i <= e,
            r == pow2(i as nat),
            pow2(e as nat) <= u64::MAX,
        decreases e - i,
    {
        proof {
            lemma_pow2_step(i as nat);
            lemma_pow2_mono((i + 1) as nat, e as nat);
        }
        r = r * 2;
        i = i + 1;
    }
    r
}

} // verus!
