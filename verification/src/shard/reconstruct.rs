//! Reconstructing a secret from shards.

use crate::error::{Error, Result};
use crate::gf256::{gf_inv, gf_mul, times};
use crate::polynomial::{basis, differences, interpolate, product, product_push, sum, sum_push};
use crate::shard::{shares, Shard, Share};
use vstd::prelude::*;

verus! {

/// Whether one of the first `end` shares has this x-coordinate.
pub open spec fn index_taken(s: Seq<Share>, end: int, index: u8) -> bool {
    exists|j: int| 0 <= j < end && (#[trigger] s[j]).index == index
}

/// What is wrong with share `i`, given those before it.
pub open spec fn fault(s: Seq<Share>, i: int) -> Option<Error> {
    if s[i].index == 0 {
        Some(Error::ZeroShardIndex)
    } else if s[i].threshold != s[0].threshold || s[i].body.len() != s[0].body.len() {
        Some(Error::MismatchedShards)
    } else if index_taken(s, i, s[i].index) {
        Some(Error::DuplicateShardIndex(s[i].index))
    } else {
        None
    }
}

/// The first fault among the shares from `start` on.
pub open spec fn first_fault(s: Seq<Share>, start: int) -> Option<Error>
    decreases s.len() - start,
{
    if start >= s.len() {
        None
    } else if fault(s, start) is Some {
        fault(s, start)
    } else {
        first_fault(s, start + 1)
    }
}

/// Why reconstruction from these shares is refused, if it is.
pub open spec fn refusal(s: Seq<Share>) -> Option<Error> {
    if s.len() == 0 {
        Some(Error::NotEnoughShards { have: 0, need: 1 })
    } else if first_fault(s, 0) is Some {
        first_fault(s, 0)
    } else if s.len() < s[0].threshold {
        Some(Error::NotEnoughShards { have: s.len() as usize, need: s[0].threshold })
    } else {
        None
    }
}

/// The x-coordinates of the first `k` shares.
pub open spec fn points(s: Seq<Share>, k: nat) -> Seq<u8> {
    Seq::new(k, |i: int| s[i].index)
}

/// Byte `pos` of the first `k` shares.
pub open spec fn values(s: Seq<Share>, k: nat, pos: int) -> Seq<u8> {
    Seq::new(k, |i: int| s[i].body[pos])
}

/// The secret in these shares: byte by byte, what interpolation through the first `K`
/// of them gives at zero, where `K` is the threshold that they record.
pub open spec fn recovered(s: Seq<Share>) -> Seq<u8> {
    let k = s[0].threshold as nat;
    Seq::new(s[0].body.len(), |pos: int| interpolate(points(s, k), values(s, k, pos)))
}

/// Shares that can stand together: with distinct x-coordinates other than 0, and of one
/// length and threshold.
pub open spec fn consistent(s: Seq<Share>) -> bool {
    &&& forall|i: int| 0 <= i < s.len() ==> (#[trigger] s[i]).index != 0
    &&& forall|i: int, j: int|
        0 <= i < s.len() && 0 <= j < s.len() ==> (#[trigger] s[i]).threshold == (
        #[trigger] s[j]).threshold && s[i].body.len() == s[j].body.len()
    &&& points(s, s.len()).no_duplicates()
}

/// There is room for only 255 distinct x-coordinates other than 0.
pub proof fn few_coordinates(s: Seq<Share>)
    requires
        consistent(s),
    ensures
        s.len() <= 255,
{
    let xs = points(s, s.len());
    let room = vstd::set_lib::set_int_range(1, 256);
    let used = xs.to_set().map(|x: u8| x as int);
    xs.unique_seq_to_set();
    vstd::set_lib::lemma_int_range(1, 256);
    vstd::set_lib::lemma_map_size(xs.to_set(), used, |x: u8| x as int);
    assert(used.subset_of(room));
    vstd::set_lib::lemma_len_subset(used, room);
}

/// Shares without a fault can stand together.
pub proof fn faultless_is_consistent(s: Seq<Share>)
    requires
        s.len() > 0,
        forall|i: int| 0 <= i < s.len() ==> #[trigger] fault(s, i) is None,
    ensures
        consistent(s),
{
    let xs = points(s, s.len());
    assert forall|i: int| 0 <= i < s.len() implies (#[trigger] s[i]).index != 0 && s[i].threshold
        == s[0].threshold && s[i].body.len() == s[0].body.len() by {
        assert(fault(s, i) is None);
    }
    assert forall|i: int, j: int| 0 <= i < j < s.len() implies xs[i] != xs[j] by {
        assert(fault(s, j) is None);
        assert(s[i].index != s[j].index);
    }
}

/// Whether one of the first `end` shards has this x-coordinate.
pub(crate) fn has_index(shards: &[Shard], end: usize, index: u8) -> (found: bool)
    requires
        end <= shards@.len(),
    ensures
        found == index_taken(shares(shards@), end as int, index),
{
    let mut j: usize = 0;
    while j < end
        invariant
            j <= end <= shards@.len(),
            !index_taken(shares(shards@), j as int, index),
        decreases end - j,
    {
        if shards[j].index == index {
            assert(shares(shards@)[j as int].index == index);
            return true;
        }
        j += 1;
    }
    false
}

/// The `i`-th Lagrange basis polynomial for the points `xs`, at zero. In this field
/// `0 - x == x`, and a difference is `^`.
fn basis_at_zero(xs: &[u8], i: usize) -> (value: u8)
    requires
        i < xs@.len(),
    ensures
        value == basis(xs@, i as int),
{
    let xi: u8 = xs[i];
    let mut num: u8 = 1;
    let mut den: u8 = 1;
    let mut j: usize = 0;
    let ghost mut others: Seq<u8> = Seq::empty();
    let ghost mut apart: Seq<u8> = Seq::empty();
    while j < xs.len()
        invariant
            i < xs@.len(),
            j <= xs@.len(),
            xi == xs@[i as int],
            others == (if j <= i {
                xs@.take(j as int)
            } else {
                xs@.take(j as int).remove(i as int)
            }),
            apart == Seq::new(others.len(), |m: int| xi ^ others[m]),
            num == product(others),
            den == product(apart),
        decreases xs@.len() - j,
    {
        if j != i {
            let xj: u8 = xs[j];
            num = gf_mul(num, xj);
            den = gf_mul(den, xi ^ xj);
            proof {
                product_push(others, xj);
                product_push(apart, xi ^ xj);
                others = others.push(xj);
                apart = apart.push(xi ^ xj);
            }
        }
        j += 1;
        proof {
            assert(others =~= (if j <= i {
                xs@.take(j as int)
            } else {
                xs@.take(j as int).remove(i as int)
            }));
            assert(apart =~= Seq::new(others.len(), |m: int| xi ^ others[m]));
        }
    }
    proof {
        assert(others =~= xs@.remove(i as int));
        assert(apart =~= differences(xs@, i as int));
    }
    gf_mul(num, gf_inv(den))
}

/// Reconstruct the secret from `shards` through Lagrange interpolation at zero.
///
/// Requires at least the recorded threshold of mutually consistent shards with distinct
/// indices; uses the first `K` of them. Returns [`Error::NotEnoughShards`] rather than
/// garbage when too few are supplied. That is a guard for usability, not for integrity:
/// a corrupted but well-formed shard still corrupts the output.
pub fn reconstruct(shards: &[Shard]) -> (result: Result<Vec<u8>>)
    ensures
        match result {
            Ok(secret) => {
                &&& refusal(shares(shards@)) is None
                &&& secret@ == recovered(shares(shards@))
            },
            Err(e) => refusal(shares(shards@)) == Some(e),
        },
{
    let ghost s = shares(shards@);
    if shards.len() == 0 {
        return Err(Error::NotEnoughShards { have: 0, need: 1 });
    }
    let need: u8 = shards[0].threshold;
    let len: usize = shards[0].body.len();
    let mut i: usize = 0;
    while i < shards.len()
        invariant
            s == shares(shards@),
            s.len() > 0,
            need == s[0].threshold,
            len == s[0].body.len(),
            i <= s.len(),
            first_fault(s, 0) == first_fault(s, i as int),
            forall|j: int| 0 <= j < i ==> #[trigger] fault(s, j) is None,
        decreases s.len() - i,
    {
        let shard: &Shard = &shards[i];
        assert(shard@ == s[i as int]);
        if shard.index == 0 {
            return Err(Error::ZeroShardIndex);
        }
        if shard.threshold != need || shard.body.len() != len {
            return Err(Error::MismatchedShards);
        }
        if has_index(shards, i, shard.index) {
            return Err(Error::DuplicateShardIndex(shard.index));
        }
        i += 1;
    }
    proof {
        faultless_is_consistent(s);
        few_coordinates(s);
    }
    if (shards.len() as u8) < need {
        return Err(Error::NotEnoughShards { have: shards.len(), need });
    }
    let mut xs: Vec<u8> = Vec::with_capacity(need as usize);
    let mut used: usize = 0;
    while used < need as usize
        invariant
            s == shares(shards@),
            used <= need <= s.len(),
            xs@ == points(s, used as nat),
        decreases need - used,
    {
        assert(shards@[used as int]@ == s[used as int]);
        xs.push(shards[used].index);
        used += 1;
        assert(xs@ =~= points(s, used as nat));
    }
    let mut secret: Vec<u8> = Vec::with_capacity(len);
    let mut pos: usize = 0;
    while pos < len
        invariant
            s == shares(shards@),
            consistent(s),
            0 < s.len(),
            need == s[0].threshold,
            len == s[0].body.len(),
            need <= s.len(),
            xs@ == points(s, need as nat),
            pos <= len,
            secret@ == recovered(s).take(pos as int),
        decreases len - pos,
    {
        assert forall|m: int| 0 <= m < shards@.len() implies pos < (#[trigger] shards@[m])@.body.len() by {
            assert(s[m] == shards@[m]@);
            assert(s[m].body.len() == s[0].body.len());
        }
        let byte: u8 = recover_byte(shards, xs.as_slice(), pos);
        assert(byte == recovered(s)[pos as int]);
        secret.push(byte);
        pos += 1;
        assert(secret@ =~= recovered(s).take(pos as int));
    }
    assert(secret@ =~= recovered(s));
    Ok(secret)
}

/// Byte `pos` of the secret, from the shards at the points `xs`.
fn recover_byte(shards: &[Shard], xs: &[u8], pos: usize) -> (byte: u8)
    requires
        xs@.len() <= shards@.len(),
        forall|i: int| 0 <= i < shards@.len() ==> pos < (#[trigger] shards@[i])@.body.len(),
    ensures
        byte == interpolate(xs@, values(shares(shards@), xs@.len(), pos as int)),
{
    let mut acc: u8 = 0;
    let mut i: usize = 0;
    let ghost ys = values(shares(shards@), xs@.len(), pos as int);
    let ghost terms = Seq::new(xs@.len(), |m: int| times(ys[m], basis(xs@, m)));
    while i < xs.len()
        invariant
            i <= xs@.len() <= shards@.len(),
            forall|m: int| 0 <= m < shards@.len() ==> pos < (#[trigger] shards@[m])@.body.len(),
            ys == values(shares(shards@), xs@.len(), pos as int),
            terms == Seq::new(xs@.len(), |m: int| times(ys[m], basis(xs@, m))),
            acc == sum(terms.take(i as int)),
        decreases xs@.len() - i,
    {
        let weight: u8 = basis_at_zero(xs, i);
        let shard: &Shard = &shards[i];
        assert(pos < shard@.body.len());
        acc ^= gf_mul(shard.body[pos], weight);
        proof {
            assert(ys[i as int] == shard@.body[pos as int]);
            sum_push(terms.take(i as int), terms[i as int]);
            assert(terms.take(i + 1) =~= terms.take(i as int).push(terms[i as int]));
        }
        i += 1;
    }
    proof {
        assert(terms.take(i as int) =~= terms);
    }
    acc
}

} // verus!
