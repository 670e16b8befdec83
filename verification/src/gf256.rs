//! The field GF(2^8): bytes read as polynomials over GF(2), multiplied modulo
//! x^8 + x^4 + x^3 + x + 1. Addition, and subtraction with it, is `^`.

use vstd::prelude::*;

verus! {

/// The polynomial `x * a`, reduced: shift left, and fold x^8 back in as 0x1b.
pub open spec fn double(a: u8) -> u8 {
    (a << 1) ^ (if a & 0x80 != 0 { 0x1bu8 } else { 0u8 })
}

/// `a` where the constant term of `b` is 1, else 0.
pub open spec fn where_odd(b: u8, a: u8) -> u8 {
    if b & 1 == 1 { a } else { 0 }
}

/// The field product: with `b = b_0 + x * b'`, it is `b_0 * a + x * (a * b')`.
pub open spec fn times(a: u8, b: u8) -> u8
    decreases b,
{
    if b == 0 {
        0
    } else {
        proof {
            halving_shrinks(b);
        }
        where_odd(b, a) ^ double(times(a, b >> 1))
    }
}

pub proof fn halving_shrinks(b: u8)
    by (bit_vector)
    requires
        b != 0,
    ensures
        b >> 1 < b,
{
}

/// `a` to the `n`-th power.
pub open spec fn power(a: u8, n: nat) -> u8
    decreases n,
{
    if n == 0 {
        1
    } else {
        times(a, power(a, (n - 1) as nat))
    }
}

/// The multiplicative inverse, as a power; 0 is sent to 0.
pub open spec fn inverse(a: u8) -> u8 {
    power(a, 254)
}

// Addition: `^` forms a group in which every element is its own negative.

pub proof fn xor_rules(a: u8, b: u8, c: u8)
    by (bit_vector)
    ensures
        a ^ b == b ^ a,
        (a ^ b) ^ c == a ^ (b ^ c),
        a ^ 0 == a,
        0 ^ a == a,
        a ^ a == 0,
        (a ^ b) ^ b == a,
        a ^ b == 0 ==> a == b,
{
}

pub proof fn xor_swap(a: u8, b: u8, c: u8, d: u8)
    by (bit_vector)
    ensures
        (a ^ b) ^ (c ^ d) == (a ^ c) ^ (b ^ d),
{
}

proof fn double_is_linear(a: u8, b: u8)
    by (bit_vector)
    ensures
        double(a ^ b) == double(a) ^ double(b),
        double(0u8) == 0,
{
}

proof fn where_odd_is_linear(b: u8, a: u8, c: u8)
    by (bit_vector)
    ensures
        where_odd(b, a ^ c) == where_odd(b, a) ^ where_odd(b, c),
        where_odd(b, double(a)) == double(where_odd(b, a)),
        where_odd(b ^ c, a) == where_odd(b, a) ^ where_odd(c, a),
        where_odd(0u8, a) == 0,
        where_odd(1u8, a) == a,
        where_odd(b, 1) ^ double(b >> 1) == b,
        (b ^ c) >> 1 == (b >> 1) ^ (c >> 1),
        0u8 >> 1 == 0,
        1u8 >> 1 == 0,
{
}

/// One step of the product, also for `b == 0`.
proof fn times_step(a: u8, b: u8)
    ensures
        times(a, b) == where_odd(b, a) ^ double(times(a, b >> 1)),
{
    if b == 0 {
        where_odd_is_linear(b, a, 0);
        double_is_linear(0, 0);
        xor_rules(0, 0, 0);
    }
}

// Multiplication.

pub proof fn times_zero(a: u8)
    ensures
        times(a, 0) == 0,
        times(0, a) == 0,
    decreases a,
{
    times_step(0, a);
    double_is_linear(0, 0);
    xor_rules(0, 0, 0);
    if a != 0 {
        halving_shrinks(a);
        times_zero(a >> 1);
    }
}

pub proof fn times_adds_left(a: u8, c: u8, b: u8)
    ensures
        times(a ^ c, b) == times(a, b) ^ times(c, b),
    decreases b,
{
    xor_rules(0, 0, 0);
    if b != 0 {
        halving_shrinks(b);
        times_adds_left(a, c, b >> 1);
        where_odd_is_linear(b, a, c);
        double_is_linear(times(a, b >> 1), times(c, b >> 1));
        xor_swap(
            where_odd(b, a),
            where_odd(b, c),
            double(times(a, b >> 1)),
            double(times(c, b >> 1)),
        );
    }
}

proof fn times_doubles_left(a: u8, b: u8)
    ensures
        times(double(a), b) == double(times(a, b)),
    decreases b,
{
    double_is_linear(0, 0);
    if b != 0 {
        halving_shrinks(b);
        times_doubles_left(a, b >> 1);
        where_odd_is_linear(b, a, 0);
        double_is_linear(where_odd(b, a), double(times(a, b >> 1)));
    }
}

pub proof fn times_one(a: u8)
    ensures
        times(a, 1) == a,
        times(1, a) == a,
    decreases a,
{
    times_step(a, 1);
    where_odd_is_linear(a, a, 0);
    double_is_linear(0, 0);
    xor_rules(a, 0, 0);
    if a != 0 {
        halving_shrinks(a);
        times_one(a >> 1);
        times_step(1, a);
    }
}

pub proof fn times_commutes(a: u8, b: u8)
    ensures
        times(a, b) == times(b, a),
    decreases a,
{
    if a == 0 {
        times_zero(b);
    } else {
        halving_shrinks(a);
        times_commutes(a >> 1, b);
        where_odd_is_linear(a, 0, 0);
        times_adds_left(where_odd(a, 1), double(a >> 1), b);
        times_doubles_left(a >> 1, b);
        times_one(b);
        times_zero(b);
        times_step(b, a);
    }
}

pub proof fn times_adds_right(a: u8, b: u8, c: u8)
    ensures
        times(a, b ^ c) == times(a, b) ^ times(a, c),
{
    times_adds_left(b, c, a);
    times_commutes(a, b ^ c);
    times_commutes(a, b);
    times_commutes(a, c);
}

pub proof fn times_associates(a: u8, b: u8, c: u8)
    ensures
        times(times(a, b), c) == times(a, times(b, c)),
    decreases c,
{
    times_zero(a);
    times_zero(b);
    times_zero(times(a, b));
    if c != 0 {
        halving_shrinks(c);
        let t = times(b, c >> 1);
        times_associates(a, b, c >> 1);
        times_adds_right(a, where_odd(c, b), double(t));
        times_commutes(a, double(t));
        times_doubles_left(t, a);
        times_commutes(a, t);
    }
}

proof fn double_by_cases(a: u8)
    by (bit_vector)
    ensures
        a < 128 ==> double(a) == 2 * a,
        a >= 128 ==> double(a) == ((2 * a - 256) as u8) ^ 0x1b,
        2u8 >> 1 == 1,
        2u8 & 1 == 0,
{
}

/// Multiplying by 2, the polynomial x, doubles the byte, and where that takes nine bits
/// folds the ninth back in as 0x1b. With the unit, the sum and the order of factors, this
/// is all there is to a product.
pub proof fn times_two(a: u8)
    ensures
        a < 128 ==> times(a, 2) == 2 * a && times(2, a) == 2 * a,
        a >= 128 ==> times(a, 2) == ((2 * a - 256) as u8) ^ 0x1b && times(2, a) == times(a, 2),
{
    double_by_cases(a);
    times_step(a, 2);
    times_one(a);
    xor_rules(double(a), 0, 0);
    times_commutes(a, 2);
}

// Powers and inverses.

pub proof fn power_adds(a: u8, m: nat, n: nat)
    ensures
        power(a, m + n) == times(power(a, m), power(a, n)),
    decreases m,
{
    if m == 0 {
        times_one(power(a, n));
    } else {
        power_adds(a, (m - 1) as nat, n);
        times_associates(a, power(a, (m - 1) as nat), power(a, n));
    }
}

pub proof fn power_of_product(a: u8, b: u8, n: nat)
    ensures
        power(times(a, b), n) == times(power(a, n), power(b, n)),
    decreases n,
{
    if n == 0 {
        times_one(1);
    } else {
        let p = power(a, (n - 1) as nat);
        let q = power(b, (n - 1) as nat);
        power_of_product(a, b, (n - 1) as nat);
        times_exchange(a, b, p, q);
    }
}

/// `(a * b) * (c * d) == (a * c) * (b * d)`.
pub proof fn times_exchange(a: u8, b: u8, c: u8, d: u8)
    ensures
        times(times(a, b), times(c, d)) == times(times(a, c), times(b, d)),
{
    times_associates(a, b, times(c, d));
    times_associates(b, c, d);
    times_commutes(b, c);
    times_associates(c, b, d);
    times_associates(a, c, times(b, d));
}

proof fn power_of_square(a: u8, n: nat)
    ensures
        power(times(a, a), n) == power(a, 2 * n),
{
    power_of_product(a, a, n);
    power_adds(a, n, n);
}

/// Squaring, which is linear, written out as the sum of the squares of the bits.
spec fn bitwise_square(a: u8) -> u8 {
    (a & 0x01) ^ ((a & 0x02) << 1) ^ ((a & 0x04) << 2) ^ ((a & 0x08) << 3)
        ^ (if a & 0x10 != 0 { 0x1bu8 } else { 0u8 })
        ^ (if a & 0x20 != 0 { 0x6cu8 } else { 0u8 })
        ^ (if a & 0x40 != 0 { 0xabu8 } else { 0u8 })
        ^ (if a & 0x80 != 0 { 0x9au8 } else { 0u8 })
}

proof fn bitwise_square_step(a: u8)
    by (bit_vector)
    ensures
        bitwise_square(a) == where_odd(a, 1) ^ double(double(bitwise_square(a >> 1))),
        bitwise_square(0u8) == 0,
{
}

proof fn square_is_bitwise(a: u8)
    ensures
        times(a, a) == bitwise_square(a),
    decreases a,
{
    bitwise_square_step(a);
    if a != 0 {
        let low = where_odd(a, 1);
        let high = double(a >> 1);
        halving_shrinks(a);
        square_is_bitwise(a >> 1);
        where_odd_is_linear(a, 0, 0);
        assert(a == low ^ high);
        times_adds_left(low, high, a);
        times_adds_right(low, low, high);
        times_adds_right(high, low, high);
        times_commutes(low, high);
        let cross = times(low, high);
        let ll = times(low, low);
        let hh = times(high, high);
        xor_swap(ll, cross, cross, hh);
        xor_rules(cross, hh, ll);
        xor_swap(ll, cross, hh, cross);
        xor_rules(ll ^ hh, 0, 0);
        times_one(1);
        times_zero(0);
        times_doubles_left(a >> 1, high);
        times_commutes(a >> 1, high);
        times_doubles_left(a >> 1, a >> 1);
    }
}

proof fn eight_squarings(a: u8, b: u8, c: u8, d: u8, e: u8, f: u8, g: u8, h: u8)
    by (bit_vector)
    requires
        b == bitwise_square(a),
        c == bitwise_square(b),
        d == bitwise_square(c),
        e == bitwise_square(d),
        f == bitwise_square(e),
        g == bitwise_square(f),
        h == bitwise_square(g),
    ensures
        bitwise_square(h) == a,
{
}

proof fn idempotents(n: u8)
    by (bit_vector)
    requires
        bitwise_square(n) == n,
    ensures
        n == 0 || n == 1,
{
}

/// Every element is its own 256th power.
pub proof fn power_256(a: u8)
    ensures
        power(a, 256) == a,
{
    let b = times(a, a);
    let c = times(b, b);
    let d = times(c, c);
    let e = times(d, d);
    let f = times(e, e);
    let g = times(f, f);
    let h = times(g, g);
    let i = times(h, h);
    square_is_bitwise(a);
    square_is_bitwise(b);
    square_is_bitwise(c);
    square_is_bitwise(d);
    square_is_bitwise(e);
    square_is_bitwise(f);
    square_is_bitwise(g);
    square_is_bitwise(h);
    eight_squarings(a, b, c, d, e, f, g, h);
    power_of_square(a, 128);
    power_of_square(b, 64);
    power_of_square(c, 32);
    power_of_square(d, 16);
    power_of_square(e, 8);
    power_of_square(f, 4);
    power_of_square(g, 2);
    power_of_square(h, 1);
    assert(power(i, 1) == i) by {
        times_one(i);
        assert(power(i, 0) == 1);
    }
}

/// Every element but 0 has an inverse, and 0 is sent to 0.
pub proof fn inverse_inverts(a: u8)
    ensures
        a != 0 ==> times(a, inverse(a)) == 1,
        a == 0 ==> inverse(a) == 0,
{
    if a == 0 {
        times_zero(power(0, 253));
    } else {
        // a^255 is idempotent, hence 0 or 1, and it is not 0 since a^256 == a.
        let n = power(a, 255);
        power_256(a);
        power_adds(a, 255, 255);
        power_adds(a, 256, 254);
        assert(power(a, 255) == times(a, power(a, 254)));
        assert(power(a, 256) == times(a, power(a, 255)));
        square_is_bitwise(n);
        idempotents(n);
        times_zero(a);
    }
}

/// A product is 0 only if a factor is.
pub proof fn no_zero_divisors(a: u8, b: u8)
    ensures
        times(a, b) == 0 <==> a == 0 || b == 0,
{
    times_zero(a);
    times_zero(b);
    if a != 0 && times(a, b) == 0 {
        times_cancels(a, b, 0);
    }
}

/// A factor other than 0 can be cancelled.
pub proof fn times_cancels(a: u8, b: u8, c: u8)
    requires
        a != 0,
        times(a, b) == times(a, c),
    ensures
        b == c,
{
    inverse_inverts(a);
    times_commutes(a, inverse(a));
    times_associates(inverse(a), a, b);
    times_associates(inverse(a), a, c);
    times_one(b);
    times_one(c);
}

/// The inverse of a product is the product of the inverses.
pub proof fn inverse_of_product(a: u8, b: u8)
    ensures
        inverse(times(a, b)) == times(inverse(a), inverse(b)),
{
    power_of_product(a, b, 254);
}

// The product as polynomial arithmetic.

/// The reduction polynomial x^8 + x^4 + x^3 + x + 1, bit `i` for x^i.
pub const MODULUS: u32 = 0x11b;

/// The product of two polynomials over GF(2), without reduction: a product
/// without carries. It is exact where the degrees add up to less than 32.
pub open spec fn carryless(a: u32, b: u32) -> u32
    decreases b,
{
    if b == 0 {
        0
    } else {
        proof {
            wide_halving_shrinks(b);
        }
        (if b & 1 == 1 { a } else { 0 }) ^ (carryless(a, b >> 1) << 1)
    }
}

pub proof fn wide_halving_shrinks(b: u32)
    by (bit_vector)
    requires
        b != 0,
    ensures
        b >> 1 < b,
{
}

/// The quotient of the unreduced product by the reduction polynomial.
pub open spec fn overflow(a: u8, b: u8) -> u32
    decreases b,
{
    if b == 0 {
        0
    } else {
        proof {
            halving_shrinks(b);
        }
        (overflow(a, b >> 1) << 1) ^ (if times(a, b >> 1) & 0x80 != 0 { 1u32 } else { 0u32 })
    }
}

proof fn overflow_bound_step(b: u8, q: u32, r: u32)
    by (bit_vector)
    requires
        b != 0,
        b >> 1 == 0 ==> q == 0,
        b >> 1 != 0 ==> q < 2 * (b >> 1),
        r == (q << 1) || r == (q << 1) ^ 1,
        b >> 1 == 0 ==> r == q << 1,
    ensures
        r < 2 * b,
{
}

proof fn overflow_bound(a: u8, b: u8)
    ensures
        b == 0 ==> overflow(a, b) == 0,
        b != 0 ==> overflow(a, b) < 2 * b,
    decreases b,
{
    if b != 0 {
        let q = overflow(a, b >> 1);
        halving_shrinks(b);
        overflow_bound(a, b >> 1);
        assert(0u8 & 0x80 == 0) by (bit_vector);
        assert((q << 1) ^ 0 == q << 1) by (bit_vector);
        overflow_bound_step(b, q, overflow(a, b));
    }
}

proof fn carryless_step(a: u32, b: u32)
    ensures
        carryless(a, b) == (if b & 1 == 1 { a } else { 0 }) ^ (carryless(a, b >> 1) << 1),
{
    if b == 0 {
        assert(0u32 >> 1 == 0 && 0u32 & 1 == 0 && 0u32 ^ (0u32 << 1) == 0) by (bit_vector);
    }
}

proof fn remainder_step(a: u8, b: u8, t: u8, p: u32, m: u32, q: u32, r: u32)
    by (bit_vector)
    requires
        q < 512,
        p == (t as u32) ^ m,
        r == (q << 1) ^ (if t & 0x80 != 0 { 1u32 } else { 0u32 }),
    ensures
        r >> 1 == q,
        (r & 1 == 1) == (t & 0x80 != 0),
        ((b as u32) & 1 == 1) == (b & 1 == 1),
        (b as u32) >> 1 == (b >> 1) as u32,
        (if b & 1 == 1 { a as u32 } else { 0 }) ^ (p << 1)
            == ((where_odd(b, a) ^ double(t)) as u32) ^ ((if r & 1 == 1 { MODULUS } else { 0 }) ^ (m
            << 1)),
{
}

/// The field product is the remainder of the unreduced product on division by
/// the reduction polynomial, 0x11b.
pub proof fn times_is_remainder(a: u8, b: u8)
    ensures
        overflow(a, b) < 0x200,
        carryless(a as u32, b as u32) == (times(a, b) as u32) ^ carryless(0x11b, overflow(a, b)),
    decreases b,
{
    overflow_bound(a, b);
    if b == 0 {
        assert(0u32 ^ 0u32 == 0) by (bit_vector);
    } else {
        halving_shrinks(b);
        times_is_remainder(a, b >> 1);
        let t = times(a, b >> 1);
        let q = overflow(a, b >> 1);
        let r = overflow(a, b);
        remainder_step(a, b, t, carryless(a as u32, (b >> 1) as u32), carryless(MODULUS, q), q, r);
        carryless_step(a as u32, b as u32);
        carryless_step(MODULUS, r);
    }
}

// The executable operations.

/// Multiplies in GF(2^8), by shifting and adding.
pub fn gf_mul(a: u8, b: u8) -> (product: u8)
    ensures
        product == times(a, b),
{
    let mut a_left: u8 = a;
    let mut b_left: u8 = b;
    let mut p: u8 = 0;
    let mut round: u8 = 0;
    proof {
        xor_rules(times(a, b), 0, 0);
        assert(b as u32 <= 0xffu32 >> 0u8) by (bit_vector);
    }
    while round < 8
        invariant
            round <= 8,
            b_left as u32 <= 0xffu32 >> round,
            p ^ times(a_left, b_left) == times(a, b),
        decreases 8 - round,
    {
        let ghost rest = times(a_left, b_left >> 1);
        proof {
            times_step(a_left, b_left);
            times_doubles_left(a_left, b_left >> 1);
            xor_rules(p, where_odd(b_left, a_left), double(rest));
            xor_rules(p, 0, 0);
            gf_mul_step(a_left, b_left, round);
        }
        if b_left & 1 != 0 {
            p ^= a_left;
        }
        let hi: u8 = a_left & 0x80;
        a_left <<= 1;
        if hi != 0 {
            a_left ^= 0x1b;
        }
        b_left >>= 1;
        round += 1;
    }
    proof {
        assert(0xffu32 >> 8u8 == 0) by (bit_vector);
        times_zero(a_left);
        xor_rules(p, 0, 0);
    }
    p
}

proof fn gf_mul_step(a: u8, b: u8, round: u8)
    by (bit_vector)
    requires
        round < 8,
        b as u32 <= 0xffu32 >> round,
    ensures
        (b >> 1) as u32 <= 0xffu32 >> ((round + 1) as u8),
        (b & 1 != 0) == (b & 1 == 1),
        a & 0x80 != 0 ==> double(a) == (a << 1) ^ 0x1b,
        a & 0x80 == 0 ==> double(a) == a << 1,
{
}

/// The multiplicative inverse, by raising to the power 254; `gf_inv(0)` is 0.
pub fn gf_inv(a: u8) -> (inv: u8)
    ensures
        inv == inverse(a),
        a != 0 ==> times(a, inv) == 1,
        a == 0 ==> inv == 0,
{
    let mut result: u8 = 1;
    let mut base: u8 = a;
    let mut exp: u32 = 254;
    proof {
        times_one(inverse(a));
    }
    while exp > 0
        invariant
            times(result, power(base, exp as nat)) == inverse(a),
        decreases exp,
    {
        proof {
            assert(exp & 1 == exp % 2 && exp >> 1 == exp / 2) by (bit_vector);
            power_of_square(base, (exp / 2) as nat);
            if exp % 2 == 1 {
                times_associates(result, base, power(base, (exp - 1) as nat));
            }
        }
        if exp & 1 == 1 {
            result = gf_mul(result, base);
        }
        base = gf_mul(base, base);
        exp >>= 1;
    }
    proof {
        times_one(result);
        inverse_inverts(a);
    }
    result
}

} // verus!
