//! Polynomials over GF(2^8), given by their coefficients from the constant term
//! up, and their interpolation at zero from the values at distinct points.

use crate::gf256::{gf_mul, inverse, power, times};
use crate::gf256::{
    inverse_inverts, inverse_of_product, no_zero_divisors, times_adds_left, times_adds_right,
    times_associates, times_cancels, times_commutes, times_exchange, times_one,
    times_zero, xor_rules, xor_swap,
};
use vstd::prelude::*;

verus! {

/// The sum of the elements of `s`.
pub open spec fn sum(s: Seq<u8>) -> u8
    decreases s.len(),
{
    if s.len() == 0 {
        0
    } else {
        sum(s.drop_last()) ^ s.last()
    }
}

/// The product of the elements of `s`.
pub open spec fn product(s: Seq<u8>) -> u8
    decreases s.len(),
{
    if s.len() == 0 {
        1
    } else {
        times(product(s.drop_last()), s.last())
    }
}

/// The value at `x` of the polynomial with the coefficients `c`: the sum of all
/// `c[i] * x^i`.
pub open spec fn eval(c: Seq<u8>, x: u8) -> u8 {
    sum(Seq::new(c.len(), |i: int| times(c[i], power(x, i as nat))))
}

/// The values at the points `xs`.
pub open spec fn evals(c: Seq<u8>, xs: Seq<u8>) -> Seq<u8> {
    Seq::new(xs.len(), |i: int| eval(c, xs[i]))
}

/// The `i`-th Lagrange basis polynomial for the points `xs`, at zero: the
/// product of all `xs[j] / (xs[i] - xs[j])` with `j` other than `i`.
pub open spec fn basis(xs: Seq<u8>, i: int) -> u8 {
    times(product(xs.remove(i)), inverse(product(differences(xs, i))))
}

/// The differences between `xs[i]` and each of the other points.
pub open spec fn differences(xs: Seq<u8>, i: int) -> Seq<u8> {
    Seq::new((xs.len() - 1) as nat, |j: int| xs[i] ^ xs.remove(i)[j])
}

/// The value at zero that Lagrange interpolation gives for the values `ys` at the
/// points `xs`.
pub open spec fn interpolate(xs: Seq<u8>, ys: Seq<u8>) -> u8 {
    sum(Seq::new(xs.len(), |i: int| times(ys[i], basis(xs, i))))
}

// Sums and products.

pub proof fn sum_push(s: Seq<u8>, a: u8)
    ensures
        sum(s.push(a)) == sum(s) ^ a,
        sum(Seq::<u8>::empty()) == 0,
{
    assert(s.push(a).drop_last() =~= s);
}

pub proof fn product_push(s: Seq<u8>, a: u8)
    ensures
        product(s.push(a)) == times(product(s), a),
{
    assert(s.push(a).drop_last() =~= s);
}

proof fn sum_first(s: Seq<u8>)
    requires
        s.len() > 0,
    ensures
        sum(s) == s[0] ^ sum(s.drop_first()),
    decreases s.len(),
{
    let rest = s.drop_first();
    if s.len() == 1 {
        assert(s.drop_last() =~= Seq::empty());
        assert(rest =~= Seq::empty());
        xor_rules(s[0], 0, 0);
    } else {
        sum_first(s.drop_last());
        assert(s.drop_last().drop_first() =~= rest.drop_last());
        xor_rules(s[0], sum(rest.drop_last()), s.last());
    }
}

proof fn product_first(s: Seq<u8>)
    requires
        s.len() > 0,
    ensures
        product(s) == times(s[0], product(s.drop_first())),
    decreases s.len(),
{
    let rest = s.drop_first();
    if s.len() == 1 {
        assert(s.drop_last() =~= Seq::empty());
        assert(rest =~= Seq::empty());
        times_one(s[0]);
    } else {
        product_first(s.drop_last());
        assert(s.drop_last().drop_first() =~= rest.drop_last());
        times_associates(s[0], product(rest.drop_last()), s.last());
    }
}

/// Sums add up term by term.
proof fn sum_adds(s: Seq<u8>, t: Seq<u8>, u: Seq<u8>)
    requires
        s.len() == t.len(),
        s.len() == u.len(),
        forall|i: int| 0 <= i < s.len() ==> #[trigger] u[i] == s[i] ^ t[i],
    ensures
        sum(u) == sum(s) ^ sum(t),
    decreases s.len(),
{
    if s.len() == 0 {
        xor_rules(0, 0, 0);
    } else {
        sum_adds(s.drop_last(), t.drop_last(), u.drop_last());
        assert(u.last() == s.last() ^ t.last());
        xor_swap(sum(s.drop_last()), sum(t.drop_last()), s.last(), t.last());
    }
}

/// A common factor comes out of a sum.
proof fn sum_scales(a: u8, s: Seq<u8>, u: Seq<u8>)
    requires
        s.len() == u.len(),
        forall|i: int| 0 <= i < s.len() ==> #[trigger] u[i] == times(a, s[i]),
    ensures
        sum(u) == times(a, sum(s)),
    decreases s.len(),
{
    if s.len() == 0 {
        times_zero(a);
    } else {
        sum_scales(a, s.drop_last(), u.drop_last());
        assert(u.last() == times(a, s.last()));
        times_adds_right(a, sum(s.drop_last()), s.last());
    }
}

proof fn product_nonzero(s: Seq<u8>)
    requires
        forall|i: int| 0 <= i < s.len() ==> #[trigger] s[i] != 0,
    ensures
        product(s) != 0,
    decreases s.len(),
{
    if s.len() > 0 {
        product_nonzero(s.drop_last());
        no_zero_divisors(product(s.drop_last()), s.last());
    }
}

// Evaluation.

/// Horner's rule: the constant term, and `x` times the rest.
pub proof fn eval_horner(c: Seq<u8>, x: u8)
    requires
        c.len() > 0,
    ensures
        eval(c, x) == c[0] ^ times(x, eval(c.drop_first(), x)),
{
    let rest = c.drop_first();
    let terms = Seq::new(c.len(), |i: int| times(c[i], power(x, i as nat)));
    let rest_terms = Seq::new(rest.len(), |i: int| times(rest[i], power(x, i as nat)));
    sum_first(terms);
    times_one(c[0]);
    assert forall|i: int| 0 <= i < rest_terms.len() implies #[trigger] terms.drop_first()[i]
        == times(x, rest_terms[i]) by {
        let p = power(x, i as nat);
        assert(power(x, (i + 1) as nat) == times(x, p));
        times_associates(rest[i], x, p);
        times_commutes(rest[i], x);
        times_associates(x, rest[i], p);
    }
    sum_scales(x, rest_terms, terms.drop_first());
}

/// At zero a polynomial has its constant term.
pub proof fn eval_at_zero(c: Seq<u8>)
    requires
        c.len() > 0,
    ensures
        eval(c, 0) == c[0],
{
    eval_horner(c, 0);
    times_zero(eval(c.drop_first(), 0));
    xor_rules(c[0], 0, 0);
}

/// The empty polynomial is zero everywhere.
pub proof fn eval_empty(x: u8)
    ensures
        eval(Seq::empty(), x) == 0,
{
}

/// Evaluates a polynomial (coefficients from the constant term up) at `x`, by
/// Horner's rule.
pub fn gf_eval(coeffs: &[u8], x: u8) -> (value: u8)
    ensures
        value == eval(coeffs@, x),
{
    let mut acc: u8 = 0;
    let mut i: usize = coeffs.len();
    proof {
        assert(coeffs@.skip(i as int) =~= Seq::empty());
        eval_empty(x);
    }
    while i > 0
        invariant
            i <= coeffs@.len(),
            acc == eval(coeffs@.skip(i as int), x),
        decreases i,
    {
        i -= 1;
        proof {
            let c = coeffs@.skip(i as int);
            assert(c.drop_first() =~= coeffs@.skip(i + 1));
            eval_horner(c, x);
            times_commutes(x, acc);
            xor_rules(coeffs@[i as int], times(acc, x), 0);
        }
        acc = gf_mul(acc, x) ^ coeffs[i];
    }
    proof {
        assert(coeffs@.skip(0) =~= coeffs@);
    }
    acc
}

// Interpolation.

/// The quotient on division by `x - r`.
pub open spec fn quotient(c: Seq<u8>, r: u8) -> Seq<u8> {
    if c.len() == 0 {
        Seq::empty()
    } else {
        Seq::new((c.len() - 1) as nat, |j: int| eval(c.skip(j + 1), r))
    }
}

/// Dividing by `x - r` leaves the value at `r` as the remainder.
pub proof fn division_by_root(c: Seq<u8>, r: u8, x: u8)
    ensures
        eval(c, x) ^ eval(c, r) == times(x ^ r, eval(quotient(c, r), x)),
    decreases c.len(),
{
    if c.len() <= 1 {
        assert(quotient(c, r) =~= Seq::empty());
        eval_empty(x);
        times_zero(x ^ r);
        if c.len() == 1 {
            eval_horner(c, x);
            eval_horner(c, r);
            assert(c.drop_first() =~= Seq::empty());
            eval_empty(r);
            times_zero(x);
            times_zero(r);
        } else {
            assert(c =~= Seq::empty());
            eval_empty(r);
        }
        xor_rules(eval(c, x), 0, 0);
    } else {
        let rest = c.drop_first();
        let q = quotient(c, r);
        let rest_q = quotient(rest, r);
        assert(c.skip(1) =~= rest);
        assert(q.drop_first() =~= rest_q) by {
            assert forall|j: int| 0 <= j < rest_q.len() implies q.drop_first()[j] == rest_q[j] by {
                assert(c.skip(j + 2) =~= rest.skip(j + 1));
            }
        }
        eval_horner(c, x);
        eval_horner(c, r);
        eval_horner(q, x);
        division_by_root(rest, r, x);
        let f = eval(rest, x);
        let g = eval(rest, r);
        let h = eval(rest_q, x);
        let d = x ^ r;
        // d * (g + x * h) == d * g + x * (d * h) == d * g + x * (f + g)
        times_adds_right(d, g, times(x, h));
        times_associates(d, x, h);
        times_commutes(d, x);
        times_associates(x, d, h);
        // == x * g + r * g + x * f + x * g == x * f + r * g
        times_adds_left(x, r, g);
        times_adds_right(x, f, g);
        collect(c[0], times(x, f), times(x, g), times(r, g));
    }
}

proof fn collect(c: u8, xf: u8, xg: u8, rg: u8)
    by (bit_vector)
    ensures
        (c ^ xf) ^ (c ^ rg) == (xg ^ rg) ^ (xf ^ xg),
{
}

/// Taking one point `x` away from the basis: `d` is its difference from the
/// point of the basis polynomial.
proof fn basis_step(n: u8, e: u8, x: u8, d: u8)
    requires
        d != 0,
    ensures
        times(d, times(times(n, x), inverse(times(e, d)))) == times(x, times(n, inverse(e))),
{
    let b = times(n, inverse(e));
    inverse_of_product(e, d);
    times_exchange(n, x, inverse(e), inverse(d));
    times_commutes(d, times(b, times(x, inverse(d))));
    times_associates(b, times(x, inverse(d)), d);
    times_associates(x, inverse(d), d);
    times_commutes(inverse(d), d);
    inverse_inverts(d);
    times_one(x);
    times_commutes(b, x);
}

proof fn basis_without_last(xs: Seq<u8>, i: int)
    requires
        xs.no_duplicates(),
        0 <= i < xs.len() - 1,
    ensures
        times(xs[i] ^ xs.last(), basis(xs, i)) == times(xs.last(), basis(xs.drop_last(), i)),
{
    let ys = xs.drop_last();
    let d = xs[i] ^ xs.last();
    assert(xs.remove(i) =~= ys.remove(i).push(xs.last()));
    assert(differences(xs, i) =~= differences(ys, i).push(d));
    product_push(ys.remove(i), xs.last());
    product_push(differences(ys, i), d);
    xor_rules(xs[i], xs.last(), 0);
    basis_step(product(ys.remove(i)), product(differences(ys, i)), xs.last(), d);
}

proof fn basis_without_first(xs: Seq<u8>, i: int)
    requires
        xs.no_duplicates(),
        0 < i < xs.len(),
    ensures
        times(xs[i] ^ xs[0], basis(xs, i)) == times(xs[0], basis(xs.drop_first(), i - 1)),
{
    let ys = xs.drop_first();
    let d = xs[i] ^ xs[0];
    let n = product(ys.remove(i - 1));
    let e = product(differences(ys, i - 1));
    assert(xs.remove(i).drop_first() =~= ys.remove(i - 1));
    assert(differences(xs, i).drop_first() =~= differences(ys, i - 1));
    product_first(xs.remove(i));
    product_first(differences(xs, i));
    times_commutes(xs[0], n);
    times_commutes(d, e);
    xor_rules(xs[i], xs[0], 0);
    basis_step(n, e, xs[0], d);
}

/// The values at zero of all the basis polynomials.
spec fn bases(xs: Seq<u8>) -> Seq<u8> {
    Seq::new(xs.len(), |i: int| basis(xs, i))
}

/// The basis polynomials add up to 1.
proof fn bases_sum_to_one(xs: Seq<u8>)
    requires
        xs.no_duplicates(),
        xs.len() > 0,
    ensures
        sum(bases(xs)) == 1,
    decreases xs.len(),
{
    let b = bases(xs);
    if xs.len() == 1 {
        assert(xs.remove(0) =~= Seq::empty());
        assert(differences(xs, 0) =~= Seq::empty());
        inverse_inverts(1);
        times_one(inverse(1));
        assert(b =~= Seq::empty().push(1u8));
        sum_push(Seq::empty(), 1);
        xor_rules(1, 0, 0);
    } else {
        let first = xs[0];
        let last = xs.last();
        let d = first ^ last;
        let s = Seq::new(xs.len(), |i: int| times(xs[i] ^ first, b[i]));
        let t = Seq::new(xs.len(), |i: int| times(xs[i] ^ last, b[i]));
        let u = Seq::new(xs.len(), |i: int| times(d, b[i]));
        // Without the first point.
        bases_sum_to_one(xs.drop_first());
        assert forall|i: int| 0 <= i < xs.len() - 1 implies #[trigger] s.drop_first()[i] == times(
            first,
            bases(xs.drop_first())[i],
        ) by {
            basis_without_first(xs, i + 1);
        }
        sum_scales(first, bases(xs.drop_first()), s.drop_first());
        sum_first(s);
        xor_rules(first, 0, 0);
        times_zero(b[0]);
        times_one(first);
        assert(sum(s) == first);
        // Without the last point.
        bases_sum_to_one(xs.drop_last());
        assert forall|i: int| 0 <= i < xs.len() - 1 implies #[trigger] t.drop_last()[i] == times(
            last,
            bases(xs.drop_last())[i],
        ) by {
            basis_without_last(xs, i);
        }
        sum_scales(last, bases(xs.drop_last()), t.drop_last());
        xor_rules(last, 0, 0);
        times_zero(b.last());
        times_one(last);
        assert(sum(t) == last);
        // Together.
        assert forall|i: int| 0 <= i < xs.len() implies #[trigger] u[i] == s[i] ^ t[i] by {
            times_adds_left(xs[i] ^ first, xs[i] ^ last, b[i]);
            xor_swap(xs[i], first, xs[i], last);
            xor_rules(xs[i], 0, 0);
            xor_rules(d, 0, 0);
        }
        sum_adds(s, t, u);
        sum_scales(d, b, u);
        xor_rules(first, last, 0);
        times_one(d);
        times_cancels(d, sum(b), 1);
    }
}

/// Interpolation is exact: from the values of a polynomial at no fewer distinct
/// points than it has coefficients, it gives the value at zero.
pub proof fn interpolation_is_exact(c: Seq<u8>, xs: Seq<u8>)
    requires
        xs.no_duplicates(),
        c.len() <= xs.len(),
    ensures
        interpolate(xs, evals(c, xs)) == eval(c, 0),
    decreases xs.len(),
{
    let terms = Seq::new(xs.len(), |i: int| times(evals(c, xs)[i], basis(xs, i)));
    if xs.len() == 0 {
        assert(c =~= Seq::empty());
        eval_empty(0);
    } else {
        let b = bases(xs);
        let last = xs.last();
        let ys = xs.drop_last();
        let q = quotient(c, last);
        let g = eval(c, last);
        let s = Seq::new(xs.len(), |i: int| times(g, b[i]));
        let t = Seq::new(xs.len(), |i: int| times(times(xs[i] ^ last, eval(q, xs[i])), b[i]));
        let rest = Seq::new(ys.len(), |i: int| times(evals(q, ys)[i], basis(ys, i)));
        // c(x_i) == c(last) + (x_i - last) * q(x_i)
        assert forall|i: int| 0 <= i < xs.len() implies #[trigger] terms[i] == s[i] ^ t[i] by {
            let v = times(xs[i] ^ last, eval(q, xs[i]));
            division_by_root(c, last, xs[i]);
            xor_rules(eval(c, xs[i]), g, 0);
            xor_rules(v, g, 0);
            times_adds_left(g, v, b[i]);
        }
        sum_adds(s, t, terms);
        bases_sum_to_one(xs);
        sum_scales(g, b, s);
        times_one(g);
        // The last term of the second sum vanishes; the others are those for q.
        assert forall|i: int| 0 <= i < ys.len() implies #[trigger] t.drop_last()[i] == times(
            last,
            rest[i],
        ) by {
            let d = xs[i] ^ last;
            let v = eval(q, xs[i]);
            times_commutes(d, v);
            times_associates(v, d, b[i]);
            basis_without_last(xs, i);
            times_associates(v, last, basis(ys, i));
            times_commutes(v, last);
            times_associates(last, v, basis(ys, i));
        }
        sum_scales(last, rest, t.drop_last());
        interpolation_is_exact(q, ys);
        xor_rules(last, 0, 0);
        times_zero(eval(q, last));
        times_zero(b.last());
        assert(t.last() == 0);
        xor_rules(times(last, eval(q, 0)), 0, 0);
        // c(0) == c(last) + last * q(0)
        division_by_root(c, last, 0);
        xor_rules(eval(c, 0), g, 0);
        xor_rules(g, times(last, eval(q, 0)), 0);
    }
}

/// The denominator of a basis polynomial for distinct points is not 0.
pub proof fn denominator_nonzero(xs: Seq<u8>, i: int)
    requires
        xs.no_duplicates(),
        0 <= i < xs.len(),
    ensures
        product(differences(xs, i)) != 0,
{
    let others = xs.remove(i);
    let apart = differences(xs, i);
    assert forall|j: int| 0 <= j < apart.len() implies #[trigger] apart[j] != 0 by {
        xor_rules(xs[i], others[j], 0);
    }
    product_nonzero(apart);
}

/// No basis polynomial vanishes at zero, unless zero is one of the points.
pub proof fn basis_nonzero(xs: Seq<u8>, i: int)
    requires
        xs.no_duplicates(),
        forall|j: int| 0 <= j < xs.len() ==> #[trigger] xs[j] != 0,
        0 <= i < xs.len(),
    ensures
        basis(xs, i) != 0,
{
    let n = product(xs.remove(i));
    let d = product(differences(xs, i));
    product_nonzero(xs.remove(i));
    denominator_nonzero(xs, i);
    inverse_inverts(d);
    times_zero(d);
    no_zero_divisors(n, inverse(d));
}

/// Sums that differ in one term differ as those terms do.
proof fn sum_one_change(s: Seq<u8>, t: Seq<u8>, i: int)
    requires
        s.len() == t.len(),
        0 <= i < s.len(),
        forall|j: int| 0 <= j < s.len() && j != i ==> #[trigger] s[j] == t[j],
    ensures
        sum(s) ^ sum(t) == s[i] ^ t[i],
    decreases s.len(),
{
    let m = sum(s.drop_last());
    if i == s.len() - 1 {
        assert(s.drop_last() =~= t.drop_last());
        xor_swap(m, s[i], m, t[i]);
        xor_rules(m, 0, 0);
        xor_rules(s[i] ^ t[i], 0, 0);
    } else {
        sum_one_change(s.drop_last(), t.drop_last(), i);
        xor_swap(m, s.last(), sum(t.drop_last()), t.last());
        assert(s.last() == t.last());
        xor_rules(s.last(), 0, 0);
        xor_rules(s[i] ^ t[i], 0, 0);
    }
}

/// One wrong value at points other than zero makes the interpolated value wrong.
pub proof fn interpolation_is_sensitive(xs: Seq<u8>, ys: Seq<u8>, zs: Seq<u8>, i: int)
    requires
        xs.no_duplicates(),
        forall|j: int| 0 <= j < xs.len() ==> #[trigger] xs[j] != 0,
        0 <= i < xs.len(),
        ys[i] != zs[i],
        forall|j: int| 0 <= j < xs.len() && j != i ==> #[trigger] ys[j] == zs[j],
    ensures
        interpolate(xs, ys) != interpolate(xs, zs),
{
    let s = Seq::new(xs.len(), |j: int| times(ys[j], basis(xs, j)));
    let t = Seq::new(xs.len(), |j: int| times(zs[j], basis(xs, j)));
    sum_one_change(s, t, i);
    times_adds_left(ys[i], zs[i], basis(xs, i));
    xor_rules(ys[i], zs[i], 0);
    basis_nonzero(xs, i);
    no_zero_divisors(ys[i] ^ zs[i], basis(xs, i));
    xor_rules(sum(s), 0, 0);
}

// Polynomials with given roots.

/// The sum of two polynomials with the same number of coefficients.
pub open spec fn plus(a: Seq<u8>, b: Seq<u8>) -> Seq<u8> {
    Seq::new(a.len(), |i: int| a[i] ^ b[i])
}

/// A polynomial times a constant.
pub open spec fn scale(a: u8, c: Seq<u8>) -> Seq<u8> {
    Seq::new(c.len(), |i: int| times(a, c[i]))
}

/// The product of all `x - r` with `r` out of `roots`.
pub open spec fn with_roots(roots: Seq<u8>) -> Seq<u8>
    decreases roots.len(),
{
    if roots.len() == 0 {
        seq![1u8]
    } else {
        let c = with_roots(roots.drop_last());
        plus(seq![0u8] + c, scale(roots.last(), c).push(0))
    }
}

/// A polynomial with `k` coefficients that has the constant term `d` and vanishes at
/// all of `roots`.
pub open spec fn blinding(roots: Seq<u8>, d: u8, k: nat) -> Seq<u8> {
    scale(times(d, inverse(product(roots))), with_roots(roots)) + Seq::new(
        (k - roots.len() - 1) as nat,
        |i: int| 0u8,
    )
}

pub proof fn eval_plus(a: Seq<u8>, b: Seq<u8>, x: u8)
    requires
        a.len() == b.len(),
    ensures
        eval(plus(a, b), x) == eval(a, x) ^ eval(b, x),
{
    let s = Seq::new(a.len(), |i: int| times(a[i], power(x, i as nat)));
    let t = Seq::new(b.len(), |i: int| times(b[i], power(x, i as nat)));
    let c = plus(a, b);
    let u = Seq::new(c.len(), |i: int| times(c[i], power(x, i as nat)));
    assert forall|i: int| 0 <= i < s.len() implies #[trigger] u[i] == s[i] ^ t[i] by {
        times_adds_left(a[i], b[i], power(x, i as nat));
    }
    sum_adds(s, t, u);
}

pub proof fn eval_scale(a: u8, c: Seq<u8>, x: u8)
    ensures
        eval(scale(a, c), x) == times(a, eval(c, x)),
{
    let s = Seq::new(c.len(), |i: int| times(c[i], power(x, i as nat)));
    let u = Seq::new(c.len(), |i: int| times(scale(a, c)[i], power(x, i as nat)));
    assert forall|i: int| 0 <= i < s.len() implies #[trigger] u[i] == times(a, s[i]) by {
        times_associates(a, c[i], power(x, i as nat));
    }
    sum_scales(a, s, u);
}

/// Leading zeros do not change a polynomial.
pub proof fn eval_padded(c: Seq<u8>, zeros: nat, x: u8)
    ensures
        eval(c + Seq::new(zeros, |i: int| 0u8), x) == eval(c, x),
    decreases zeros,
{
    let padded = c + Seq::new(zeros, |i: int| 0u8);
    if zeros == 0 {
        assert(padded =~= c);
    } else {
        let less = c + Seq::new((zeros - 1) as nat, |i: int| 0u8);
        eval_padded(c, (zeros - 1) as nat, x);
        let s = Seq::new(less.len(), |i: int| times(less[i], power(x, i as nat)));
        let u = Seq::new(padded.len(), |i: int| times(padded[i], power(x, i as nat)));
        times_zero(power(x, less.len()));
        assert(u =~= s.push(0));
        sum_push(s, 0);
        xor_rules(sum(s), 0, 0);
    }
}

/// The value at `x` is the product of all `x - r`.
pub proof fn eval_with_roots(roots: Seq<u8>, x: u8)
    ensures
        with_roots(roots).len() == roots.len() + 1,
        eval(with_roots(roots), x) == product(Seq::new(roots.len(), |i: int| x ^ roots[i])),
    decreases roots.len(),
{
    let factors = Seq::new(roots.len(), |i: int| x ^ roots[i]);
    if roots.len() == 0 {
        eval_horner(seq![1u8], x);
        assert(seq![1u8].drop_first() =~= Seq::empty());
        eval_empty(x);
        times_zero(x);
        xor_rules(1, 0, 0);
    } else {
        let r = roots.last();
        let c = with_roots(roots.drop_last());
        let shifted = seq![0u8] + c;
        let scaled = scale(r, c);
        eval_with_roots(roots.drop_last(), x);
        assert(factors.drop_last() =~= Seq::new(
            roots.drop_last().len(),
            |i: int| x ^ roots.drop_last()[i],
        ));
        eval_plus(shifted, scaled.push(0), x);
        eval_horner(shifted, x);
        assert(shifted.drop_first() =~= c);
        xor_rules(times(x, eval(c, x)), 0, 0);
        assert(scaled.push(0) =~= scaled + Seq::new(1, |i: int| 0u8));
        eval_padded(scaled, 1, x);
        eval_scale(r, c, x);
        times_adds_left(x, r, eval(c, x));
        times_commutes(x ^ r, eval(c, x));
    }
}

/// A blinding polynomial is what it is meant to be.
pub proof fn blinding_blinds(roots: Seq<u8>, d: u8, k: nat)
    requires
        roots.len() < k,
        forall|i: int| 0 <= i < roots.len() ==> #[trigger] roots[i] != 0,
    ensures
        blinding(roots, d, k).len() == k,
        blinding(roots, d, k)[0] == d,
        forall|i: int| 0 <= i < roots.len() ==> eval(blinding(roots, d, k), #[trigger] roots[i]) == 0,
{
    let c = with_roots(roots);
    let a = times(d, inverse(product(roots)));
    let b = blinding(roots, d, k);
    eval_with_roots(roots, 0);
    assert forall|x: u8| eval(b, x) == times(a, eval(c, x)) by {
        eval_padded(scale(a, c), (k - roots.len() - 1) as nat, x);
        eval_scale(a, c, x);
    }
    // At zero: (d / p) * p, where p is the product of the roots.
    let p = product(roots);
    assert forall|i: int| 0 <= i < roots.len() implies 0 ^ #[trigger] roots[i] == roots[i] by {
        xor_rules(roots[i], 0, 0);
    }
    assert(Seq::new(roots.len(), |i: int| 0 ^ roots[i]) =~= roots);
    product_nonzero(roots);
    inverse_inverts(p);
    times_commutes(p, inverse(p));
    times_associates(d, inverse(p), p);
    times_one(d);
    eval_at_zero(b);
    // At a root, where one factor is 0.
    assert forall|i: int| 0 <= i < roots.len() implies eval(b, #[trigger] roots[i]) == 0 by {
        let factors = Seq::new(roots.len(), |j: int| roots[i] ^ roots[j]);
        eval_with_roots(roots, roots[i]);
        xor_rules(roots[i], 0, 0);
        product_with_zero(factors, i);
        times_zero(a);
    }
}

proof fn product_with_zero(s: Seq<u8>, i: int)
    requires
        0 <= i < s.len(),
        s[i] == 0,
    ensures
        product(s) == 0,
    decreases s.len(),
{
    times_zero(product(s.drop_last()));
    times_zero(s.last());
    if i < s.len() - 1 {
        product_with_zero(s.drop_last(), i);
    }
}

} // verus!
