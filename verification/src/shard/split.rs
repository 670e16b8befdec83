//! Splitting a secret into shards.

use crate::error::{Error, Result};
use crate::policy::RecoveryPolicy;
use crate::polynomial::{eval, gf_eval};
use crate::shard::{shares, Shard, Share};
use vstd::prelude::*;

verus! {

/// A cryptographically secure source of randomness, injected by the caller so that the
/// crate stays pure.
///
/// [`split`] draws `K - 1` random field elements per secret byte from it. Callers wire
/// their platform's secure source here; a predictable one must never be used for real
/// splits.
pub trait Rng {
    /// Whether one call of `fill` may turn this source into `after` while the buffer
    /// goes from `before` to `out`. Each source may have its own such relation; unless it
    /// gives one, nothing is known of what it fills in.
    open spec fn fills(&self, after: &Self, before: Seq<u8>, out: Seq<u8>) -> bool {
        true
    }

    /// Fill `out`, which keeps its length, with random bytes.
    fn fill(&mut self, out: &mut [u8])
        ensures
            final(out)@.len() == old(out)@.len(),
            old(self).fills(final(self), old(out)@, final(out)@),
    ;
}

/// The coefficients of one polynomial per secret byte: `k` of them each, of which the
/// constant term is the byte.
pub open spec fn hides(rows: Seq<Seq<u8>>, secret: Seq<u8>, k: u8) -> bool {
    &&& rows.len() == secret.len()
    &&& forall|pos: int|
        0 <= pos < rows.len() ==> (#[trigger] rows[pos]).len() == k && rows[pos][0] == secret[pos]
}

/// The shares of `n` custodians under threshold `k`: number `i`, counted from 1, holds
/// the value of each polynomial at `i`.
pub open spec fn deal(rows: Seq<Seq<u8>>, k: u8, n: nat) -> Seq<Share> {
    Seq::new(n, |i: int| deal_one(rows, k, (i + 1) as u8))
}

/// The share with x-coordinate `x`.
pub open spec fn deal_one(rows: Seq<Seq<u8>>, k: u8, x: u8) -> Share {
    Share { index: x, threshold: k, body: Seq::new(rows.len(), |pos: int| eval(rows[pos], x)) }
}

/// What the buffer for the random coefficients of byte `pos` holds before it is filled:
/// the coefficients of the byte before, or zeros.
pub open spec fn buffer_before(rows: Seq<Seq<u8>>, k: u8, pos: int) -> Seq<u8> {
    if pos == 0 {
        Seq::new((k - 1) as nat, |i: int| 0u8)
    } else {
        rows[pos - 1].drop_first()
    }
}

/// The coefficients of byte `pos` but the constant term come out of one call of `fill`,
/// which takes the source from one state to the next. With `k == 1` there is none to
/// draw, and no call.
pub open spec fn draws<R: Rng>(rows: Seq<Seq<u8>>, states: Seq<R>, k: u8, pos: int) -> bool {
    if k > 1 {
        states[pos].fills(
            &states[pos + 1],
            buffer_before(rows, k, pos),
            rows[pos].drop_first(),
        )
    } else {
        states[pos + 1] == states[pos]
    }
}

/// All the coefficients but the constant terms are drawn from a source that goes from
/// `before` to `after`.
pub open spec fn drawn<R: Rng>(
    rows: Seq<Seq<u8>>,
    states: Seq<R>,
    k: u8,
    before: R,
    after: R,
) -> bool {
    &&& states.len() == rows.len() + 1
    &&& states.first() == before
    &&& states.last() == after
    &&& forall|pos: int| 0 <= pos < rows.len() ==> #[trigger] draws(rows, states, k, pos)
}

/// Split `secret` into one shard per custodian under `policy`'s threshold, drawing the
/// random coefficients from `rng`.
///
/// Each secret byte becomes a polynomial of degree below `K` of its own, whose constant
/// term is the byte; every custodian's shard records the values of the polynomials at
/// the custodian's x-coordinate. Any `K` shards reconstruct the secret through
/// [`reconstruct`](crate::reconstruct); any `K - 1` reveal nothing.
pub fn split<R: Rng>(secret: &[u8], policy: &RecoveryPolicy, rng: &mut R) -> (result: Result<
    Vec<Shard>,
>)
    ensures
        match result {
            Ok(shards) => {
                &&& secret@.len() > 0
                &&& shards@.len() == policy.members().len()
                &&& exists|rows: Seq<Seq<u8>>, states: Seq<R>| #[trigger]
                    drawn(rows, states, policy.k(), *old(rng), *final(rng)) && hides(
                        rows,
                        secret@,
                        policy.k(),
                    ) && shares(shards@) == deal(rows, policy.k(), policy.n())
            },
            Err(e) => {
                &&& secret@.len() == 0
                &&& e == Error::EmptySecret
                &&& *final(rng) == *old(rng)
            },
        },
{
    if secret.len() == 0 {
        return Err(Error::EmptySecret);
    }
    let k: u8 = policy.threshold();
    let n: usize = policy.custodians().len();
    let mut shards: Vec<Shard> = Vec::with_capacity(n);
    let mut x: usize = 1;
    while x <= n
        invariant
            n <= 255,
            1 <= x <= n + 1,
            shards@.len() == x - 1,
            forall|i: int|
                0 <= i < shards@.len() ==> (#[trigger] shards@[i])@ == (Share {
                    index: (i + 1) as u8,
                    threshold: k,
                    body: Seq::empty(),
                }),
        decreases n + 1 - x,
    {
        let shard: Shard = Shard {
            index: x as u8,
            threshold: k,
            body: Vec::with_capacity(secret.len()),
        };
        assert(shard@.body =~= Seq::empty());
        shards.push(shard);
        x += 1;
    }
    let mut coeffs: Vec<u8> = vec![0; k as usize];
    let mut pos: usize = 0;
    let ghost mut rows: Seq<Seq<u8>> = Seq::empty();
    let ghost mut states: Seq<R> = seq![*rng];
    proof {
        assert(coeffs@.drop_first() =~= buffer_before(rows, k, 0));
        assert forall|i: int| 0 <= i < n implies (#[trigger] shards@[i])@ == deal_one(
            rows,
            k,
            (i + 1) as u8,
        ) by {
            assert(shards@[i]@.body =~= deal_one(rows, k, (i + 1) as u8).body);
        }
    }
    while pos < secret.len()
        invariant
            1 <= k,
            k == policy.k(),
            pos <= secret@.len(),
            coeffs@.len() == k,
            coeffs@.drop_first() == buffer_before(rows, k, pos as int),
            rows.len() == pos,
            hides(rows, secret@.take(pos as int), k),
            drawn(rows, states, k, *old(rng), *rng),
            shards@.len() == n,
            forall|i: int|
                0 <= i < n ==> (#[trigger] shards@[i])@ == deal_one(rows, k, (i + 1) as u8),
        decreases secret@.len() - pos,
    {
        let ghost earlier_rows = rows;
        let ghost earlier_states = states;
        coeffs[0] = secret[pos];
        assert(coeffs@.drop_first() =~= buffer_before(rows, k, pos as int));
        if k > 1 {
            let (_, random) = coeffs.as_mut_slice().split_at_mut(1);
            assert(random@ =~= buffer_before(rows, k, pos as int));
            rng.fill(random);
            assert(coeffs@.drop_first() =~= random@);
        }
        deal_row(&mut shards, coeffs.as_slice());
        proof {
            rows = rows.push(coeffs@);
            states = states.push(*rng);
            assert forall|p: int| 0 <= p < rows.len() implies #[trigger] draws(
                rows,
                states,
                k,
                p,
            ) by {
                assert(buffer_before(rows, k, p) == buffer_before(earlier_rows, k, p));
                if p < earlier_rows.len() {
                    assert(draws(earlier_rows, earlier_states, k, p));
                }
            }
        }
        pos += 1;
    }
    proof {
        assert(secret@.take(pos as int) =~= secret@);
        assert(shares(shards@) =~= deal(rows, k, policy.n()));
        assert(drawn(rows, states, policy.k(), *old(rng), *rng));
    }
    Ok(shards)
}

/// Appends to the body of every shard the value, at the shard's own x-coordinate, of the
/// polynomial with these coefficients.
fn deal_row(shards: &mut Vec<Shard>, coeffs: &[u8])
    ensures
        final(shards)@.len() == old(shards)@.len(),
        forall|i: int|
            0 <= i < final(shards)@.len() ==> (#[trigger] final(shards)@[i])@ == (Share {
                body: old(shards)@[i]@.body.push(eval(coeffs@, old(shards)@[i]@.index)),
                ..old(shards)@[i]@
            }),
{
    let mut i: usize = 0;
    while i < shards.len()
        invariant
            i <= shards@.len(),
            shards@.len() == old(shards)@.len(),
            forall|j: int|
                0 <= j < i ==> (#[trigger] shards@[j])@ == (Share {
                    body: old(shards)@[j]@.body.push(eval(coeffs@, old(shards)@[j]@.index)),
                    ..old(shards)@[j]@
                }),
            forall|j: int| i <= j < shards@.len() ==> #[trigger] shards@[j] == old(shards)@[j],
        decreases shards@.len() - i,
    {
        let value: u8 = gf_eval(coeffs, shards[i].index);
        shards[i].body.push(value);
        i += 1;
    }
}

} // verus!
