//! What each operation answers, said of its inputs and its result alone.

use crate::error::Error;
use crate::laws::{accepted_iff_enough_and_consistent, faultless_iff_consistent};
use crate::laws::{distinct_custodians, picked, shares_of_one_split_are_consistent};
use crate::policy::{policy_refusal, RecoveryPolicy};
use crate::polynomial::eval;
use crate::shard::collector::{accepted_stands_together, rejection, ShardCollector};
use crate::shard::reconstruct::{
    consistent, fault, few_coordinates, first_fault, index_taken, points, recovered, refusal,
};
use crate::shard::split::{buffer_before, deal, draws, drawn, hides, Rng};
use crate::shard::{shares, Shard, Share};
use vstd::prelude::*;

verus! {

// Policies.

/// Each refusal of a policy is given exactly for its own reason, and names the numbers.
pub proof fn policies_are_refused_for_their_reasons(k: u8, n: usize, j: u8, m: usize)
    ensures
        policy_refusal(None, n as nat) == Some(Error::ThresholdUnset),
        policy_refusal(Some(k), n as nat) == Some(Error::ZeroThreshold) <==> k == 0,
        policy_refusal(Some(k), n as nat) == Some(Error::NoCustodians) <==> k >= 1 && n == 0,
        policy_refusal(Some(k), n as nat) == Some(Error::TooManyCustodians(m)) <==> k >= 1 && n
            > 255 && m == n,
        policy_refusal(Some(k), n as nat) == Some(
            Error::ThresholdExceedsCustodians { k: j, n: m },
        ) <==> 1 <= n <= 255 && k > n && j == k && m == n,
        policy_refusal(Some(k), n as nat) is None <==> 1 <= k <= n <= 255,
{
}

/// Every policy has a threshold of at least 1 that its custodians, at most 255, can meet.
pub proof fn policies_can_be_met(policy: RecoveryPolicy)
    ensures
        policy.wf() <==> 1 <= policy.k() && policy.k() <= policy.members().len()
            && policy.members().len() <= 255,
        policy.n() == policy.members().len(),
{
}

// Splitting.

/// One share per shard, in the same order.
pub proof fn shares_follow_the_shards(shards: Seq<Shard>)
    ensures
        shares(shards).len() == shards.len(),
        forall|i: int| 0 <= i < shards.len() ==> #[trigger] shares(shards)[i] == shards[i]@,
{
}

/// A secret is hidden in one polynomial per byte, each with exactly `k` coefficients, the
/// first of which is the byte.
pub proof fn each_byte_is_a_constant_term(rows: Seq<Seq<u8>>, secret: Seq<u8>, k: u8)
    ensures
        hides(rows, secret, k) <==> {
            &&& rows.len() == secret.len()
            &&& forall|pos: int| 0 <= pos < rows.len() ==> (#[trigger] rows[pos]).len() == k
            &&& forall|pos: int| 0 <= pos < rows.len() ==> (#[trigger] rows[pos])[0] == secret[pos]
        },
{
}

/// Every custodian gets a share: the coordinates are 1 to `n`, the threshold is the
/// policy's, and the body has the value of each polynomial at the coordinate.
pub proof fn every_custodian_gets_the_values(rows: Seq<Seq<u8>>, k: u8, n: nat, i: int, pos: int)
    requires
        n <= 255,
        0 <= i < n,
        0 <= pos < rows.len(),
    ensures
        deal(rows, k, n).len() == n,
        deal(rows, k, n)[i].index == i + 1,
        deal(rows, k, n)[i].threshold == k,
        deal(rows, k, n)[i].body.len() == rows.len(),
        deal(rows, k, n)[i].body[pos] == eval(rows[pos], (i + 1) as u8),
{
}

/// The source is called once per byte, and for nothing else: call number `pos` is handed a
/// buffer with what the call before left in it, at first zeros, and what it leaves there
/// are all the coefficients of byte `pos` above the constant term. With `k == 1`, where
/// there are none, the source is left alone.
pub proof fn the_source_is_called_once_per_byte<R: Rng>(
    rows: Seq<Seq<u8>>,
    states: Seq<R>,
    k: u8,
    before: R,
    after: R,
    zeros: Seq<u8>,
)
    requires
        zeros.len() == k - 1,
        forall|i: int| 0 <= i < zeros.len() ==> #[trigger] zeros[i] == 0,
    ensures
        drawn(rows, states, k, before, after) <==> {
            &&& states.len() == rows.len() + 1
            &&& states[0] == before
            &&& states[rows.len() as int] == after
            &&& k > 1 ==> forall|pos: int|
                0 <= pos < rows.len() ==> states[pos].fills(
                    &states[pos + 1],
                    if pos == 0 { zeros } else { rows[pos - 1].drop_first() },
                    (#[trigger] rows[pos]).drop_first(),
                )
            &&& k == 1 ==> after == before && forall|pos: int|
                0 <= pos < rows.len() ==> #[trigger] states[pos] == before
        },
{
    assert(buffer_before(rows, k, 0) =~= zeros);
    if drawn(rows, states, k, before, after) {
        assert forall|pos: int| k > 1 && 0 <= pos < rows.len() implies states[pos].fills(
            &states[pos + 1],
            if pos == 0 { zeros } else { rows[pos - 1].drop_first() },
            (#[trigger] rows[pos]).drop_first(),
        ) by {
            assert(draws(rows, states, k, pos));
        }
        if k == 1 {
            assert forall|pos: int| 0 <= pos <= rows.len() implies #[trigger] states[pos]
                == before by {
                idle_source(rows, states, k, before, after, pos);
            }
        }
    } else if states.len() == rows.len() + 1 && states[0] == before && states[rows.len() as int]
        == after {
        let pos = choose|pos: int| 0 <= pos < rows.len() && !#[trigger] draws(rows, states, k, pos);
        assert(rows[pos] == rows[pos]);
        assert(k == 1 ==> !(states[pos + 1] == states[pos]));
        if pos + 1 < rows.len() {
            assert(states[pos + 1] == states[pos + 1]);
        }
    }
}

proof fn idle_source<R: Rng>(
    rows: Seq<Seq<u8>>,
    states: Seq<R>,
    k: u8,
    before: R,
    after: R,
    pos: int,
)
    requires
        k == 1,
        drawn(rows, states, k, before, after),
        0 <= pos <= rows.len(),
    ensures
        states[pos] == before,
    decreases pos,
{
    if pos > 0 {
        idle_source(rows, states, k, before, after, pos - 1);
        assert(draws(rows, states, k, pos - 1));
    }
}

/// All the `k - 1` coefficients of every byte above the constant term are what one call of
/// the source put into a buffer of that length.
pub proof fn every_coefficient_is_random<R: Rng>(
    rows: Seq<Seq<u8>>,
    states: Seq<R>,
    secret: Seq<u8>,
    k: u8,
    before: R,
    after: R,
    pos: int,
)
    requires
        k > 1,
        drawn(rows, states, k, before, after),
        hides(rows, secret, k),
        0 <= pos < secret.len(),
    ensures
        rows[pos] == seq![secret[pos]] + rows[pos].drop_first(),
        rows[pos].drop_first().len() == k - 1,
        exists|buffer: Seq<u8>|
            buffer.len() == k - 1 && #[trigger] states[pos].fills(
                &states[pos + 1],
                buffer,
                rows[pos].drop_first(),
            ),
{
    assert(draws(rows, states, k, pos));
    assert(rows[pos].len() == k);
    assert(rows[pos] =~= seq![secret[pos]] + rows[pos].drop_first());
    let buffer = buffer_before(rows, k, pos);
    if pos > 0 {
        assert(rows[pos - 1].len() == k);
    }
    assert(buffer.len() == k - 1);
}

/// From a source that may fill in anything, any choice of coefficients may come.
pub proof fn any_coefficients_can_be_drawn<R: Rng>(
    rows: Seq<Seq<u8>>,
    secret: Seq<u8>,
    k: u8,
    source: R,
)
    requires
        k >= 1,
        rows.len() == secret.len(),
        forall|pos: int|
            0 <= pos < rows.len() ==> (#[trigger] rows[pos]).len() == k && rows[pos][0]
                == secret[pos],
        forall|buffer: Seq<u8>, out: Seq<u8>|
            buffer.len() == out.len() ==> #[trigger] source.fills(&source, buffer, out),
    ensures
        hides(rows, secret, k),
        drawn(rows, Seq::new(rows.len() + 1, |i: int| source), k, source, source),
{
    let states = Seq::new(rows.len() + 1, |i: int| source);
    assert forall|pos: int| 0 <= pos < rows.len() implies #[trigger] draws(
        rows,
        states,
        k,
        pos,
    ) by {
        assert(rows[pos].len() == k);
        if pos > 0 {
            assert(rows[pos - 1].len() == k);
        }
        let buffer = buffer_before(rows, k, pos);
        let out = rows[pos].drop_first();
        assert(buffer.len() == out.len());
        assert(source.fills(&source, buffer, out));
    }
}

// Reconstructing.

/// Shares can stand together exactly where no coordinate is 0, no two are equal, and all
/// agree on the threshold and on the length.
pub proof fn standing_together(s: Seq<Share>)
    ensures
        consistent(s) <==> {
            &&& forall|i: int| 0 <= i < s.len() ==> (#[trigger] s[i]).index != 0
            &&& forall|i: int, j: int|
                0 <= i < j < s.len() ==> (#[trigger] s[i]).index != (#[trigger] s[j]).index
            &&& forall|i: int|
                0 <= i < s.len() ==> (#[trigger] s[i]).threshold == s[0].threshold
                    && s[i].body.len() == s[0].body.len()
        },
{
    let xs = points(s, s.len());
    if consistent(s) {
        assert forall|i: int, j: int| 0 <= i < j < s.len() implies (#[trigger] s[i]).index != (
        #[trigger] s[j]).index by {
            assert(xs[i] != xs[j]);
        }
    }
}

/// Some share has a fault, and those before it have none.
proof fn first_fault_is_first(s: Seq<Share>, start: int) -> (i: int)
    requires
        0 <= start,
        first_fault(s, start) is Some,
    ensures
        start <= i < s.len(),
        fault(s, i) == first_fault(s, start),
        forall|j: int| start <= j < i ==> #[trigger] fault(s, j) is None,
    decreases s.len() - start,
{
    if fault(s, start) is Some {
        start
    } else {
        first_fault_is_first(s, start + 1)
    }
}

proof fn first_fault_is_found(s: Seq<Share>, start: int, i: int)
    requires
        0 <= start <= i < s.len(),
        fault(s, i) is Some,
        forall|j: int| start <= j < i ==> #[trigger] fault(s, j) is None,
    ensures
        first_fault(s, start) == fault(s, i),
    decreases i - start,
{
    if start < i {
        assert(fault(s, start) is None);
        first_fault_is_found(s, start + 1, i);
    }
}

/// The shares before `i` have no fault exactly where they can stand together.
proof fn faultless_before(s: Seq<Share>, i: int)
    requires
        0 <= i <= s.len(),
    ensures
        (forall|j: int| 0 <= j < i ==> #[trigger] fault(s, j) is None) <==> consistent(s.take(i)),
{
    let t = s.take(i);
    standing_together(t);
    if i > 0 {
        assert forall|j: int| 0 <= j < i implies #[trigger] fault(s, j) == fault(t, j) by {
            if index_taken(s, j, s[j].index) {
                let m = choose|m: int| 0 <= m < j && (#[trigger] s[m]).index == s[j].index;
                assert(t[m].index == t[j].index);
            }
            if index_taken(t, j, t[j].index) {
                let m = choose|m: int| 0 <= m < j && (#[trigger] t[m]).index == t[j].index;
                assert(s[m].index == s[j].index);
            }
        }
        faultless_iff_consistent(t);
        if consistent(t) {
            assert forall|j: int| 0 <= j < i implies #[trigger] fault(s, j) is None by {
                if fault(t, j) is Some {
                    let at = first_fault_from(t, j);
                    first_fault_is_found(t, 0, at);
                }
            }
        } else if forall|j: int| 0 <= j < i ==> #[trigger] fault(s, j) is None {
            let at = first_fault_is_first(t, 0);
            assert(fault(s, at) is None);
        }
    }
}

/// The first share with a fault, where `j` has one.
proof fn first_fault_from(s: Seq<Share>, j: int) -> (i: int)
    requires
        0 <= j < s.len(),
        fault(s, j) is Some,
    ensures
        0 <= i <= j,
        fault(s, i) is Some,
        forall|m: int| 0 <= m < i ==> #[trigger] fault(s, m) is None,
    decreases j,
{
    if exists|m: int| 0 <= m < j && #[trigger] fault(s, m) is Some {
        let m = choose|m: int| 0 <= m < j && #[trigger] fault(s, m) is Some;
        first_fault_from(s, m)
    } else {
        j
    }
}

/// Each refusal of shares is given exactly for its own reason, which is the first there
/// is: shares that can stand together, up to one that has index 0, or that differs from
/// the first in threshold or length, or that has the index of an earlier one, which is the
/// index that is named. Only shares that can all stand together are refused for being too
/// few, with their number and the threshold that they record.
pub proof fn shares_are_refused_for_their_reasons(s: Seq<Share>, x: u8, have: usize, need: u8)
    ensures
        refusal(s) == Some(Error::ZeroShardIndex) <==> exists|i: int|
            0 <= i < s.len() && (#[trigger] s[i]).index == 0 && consistent(s.take(i)),
        refusal(s) == Some(Error::MismatchedShards) <==> exists|i: int|
            0 <= i < s.len() && (#[trigger] s[i]).index != 0 && (s[i].threshold != s[0].threshold
                || s[i].body.len() != s[0].body.len()) && consistent(s.take(i)),
        refusal(s) == Some(Error::DuplicateShardIndex(x)) <==> exists|i: int, j: int|
            0 <= i < j < s.len() && (#[trigger] s[i]).index == x && (#[trigger] s[j]).index == x
                && x != 0 && s[j].threshold == s[0].threshold && s[j].body.len() == s[0].body.len()
                && consistent(s.take(j)),
        refusal(s) == Some(Error::NotEnoughShards { have, need }) <==> {
            ||| s.len() == 0 && have == 0 && need == 1
            ||| s.len() > 0 && consistent(s) && s.len() < s[0].threshold && have == s.len() && need
                == s[0].threshold
        },
        refusal(s) is None <==> s.len() > 0 && consistent(s) && s.len() >= s[0].threshold,
{
    accepted_iff_enough_and_consistent(s);
    if s.len() > 0 {
        faultless_iff_consistent(s);
        if consistent(s) {
            few_coordinates(s);
        }
        // From the refusal to the reason.
        if first_fault(s, 0) is Some {
            let i = first_fault_is_first(s, 0);
            faultless_before(s, i);
            assert(consistent(s.take(i)));
            if s[i].index == 0 {
            } else if s[i].threshold != s[0].threshold || s[i].body.len() != s[0].body.len() {
            } else {
                let j = choose|j: int| 0 <= j < i && (#[trigger] s[j]).index == s[i].index;
                assert(s[j].index == s[i].index);
            }
        }
        // From the reason to the refusal.
        assert forall|i: int| 0 <= i < s.len() && #[trigger] consistent(s.take(i)) && fault(
            s,
            i,
        ) is Some implies refusal(s) == fault(s, i) by {
            faultless_before(s, i);
            first_fault_is_found(s, 0, i);
        }
    }
    if exists|i: int| 0 <= i < s.len() && (#[trigger] s[i]).index == 0 && consistent(s.take(i)) {
        let i = choose|i: int|
            0 <= i < s.len() && (#[trigger] s[i]).index == 0 && consistent(s.take(i));
        assert(fault(s, i) is Some);
    }
    if exists|i: int|
        0 <= i < s.len() && (#[trigger] s[i]).index != 0 && (s[i].threshold != s[0].threshold
            || s[i].body.len() != s[0].body.len()) && consistent(s.take(i)) {
        let i = choose|i: int|
            0 <= i < s.len() && (#[trigger] s[i]).index != 0 && (s[i].threshold != s[0].threshold
                || s[i].body.len() != s[0].body.len()) && consistent(s.take(i));
        assert(fault(s, i) is Some);
    }
    if exists|i: int, j: int|
        0 <= i < j < s.len() && (#[trigger] s[i]).index == x && (#[trigger] s[j]).index == x && x
            != 0 && s[j].threshold == s[0].threshold && s[j].body.len() == s[0].body.len()
            && consistent(s.take(j)) {
        let (i, j) = choose|i: int, j: int|
            0 <= i < j < s.len() && (#[trigger] s[i]).index == x && (#[trigger] s[j]).index == x && x
                != 0 && s[j].threshold == s[0].threshold && s[j].body.len() == s[0].body.len()
                && consistent(s.take(j));
        assert(index_taken(s, j, s[j].index));
        assert(fault(s, j) is Some);
    }
}

/// The recovered secret is as long as the bodies of the shares.
pub proof fn recovered_has_the_length_of_a_body(s: Seq<Share>)
    ensures
        recovered(s).len() == s[0].body.len(),
{
}

// Collecting.

/// Each rejection of a share is given exactly for its own reason, and a share without one
/// is taken.
pub proof fn shares_are_rejected_for_their_reasons(held: Seq<Share>, new: Share, x: u8)
    ensures
        rejection(held, new) == Some(Error::ZeroShardIndex) <==> new.index == 0,
        rejection(held, new) == Some(Error::MismatchedShards) <==> new.index != 0 && held.len() > 0
            && (new.threshold != held[0].threshold || new.body.len() != held[0].body.len()),
        rejection(held, new) == Some(Error::DuplicateShardIndex(x)) <==> new.index == x && x != 0
            && exists|j: int|
            0 <= j < held.len() && (#[trigger] held[j]).index == x && new.threshold
                == held[0].threshold && new.body.len() == held[0].body.len(),
        rejection(held, new) is None <==> new.index != 0 && forall|j: int|
            0 <= j < held.len() ==> (#[trigger] held[j]).index != new.index && new.threshold
                == held[0].threshold && new.body.len() == held[0].body.len(),
{
    if held.len() > 0 {
        assert(held[0] == held[0]);
    }
}

/// Exactly the shares that can stand together with those held are taken.
pub proof fn taken_iff_standing_together(held: Seq<Share>, new: Share)
    requires
        consistent(held),
    ensures
        rejection(held, new) is None <==> consistent(held.push(new)),
{
    let all = held.push(new);
    standing_together(held);
    standing_together(all);
    shares_are_rejected_for_their_reasons(held, new, 0);
    if consistent(all) {
        assert(all[held.len() as int] == new);
        assert forall|j: int| 0 <= j < held.len() implies (#[trigger] held[j]).index != new.index
            && new.threshold == held[0].threshold && new.body.len() == held[0].body.len() by {
            assert(all[j] == held[j]);
            assert(all[0] == held[0]);
        }
    }
    if rejection(held, new) is None {
        accepted_stands_together(held, new);
    }
}

/// The shares of different custodians out of one split are taken one after the other,
/// however many there are and in whatever order they come.
pub proof fn shares_of_one_split_are_taken(
    rows: Seq<Seq<u8>>,
    k: u8,
    n: nat,
    picks: Seq<int>,
)
    requires
        n <= 255,
        distinct_custodians(picks, n),
        picks.len() > 0,
    ensures
        rejection(
            picked(deal(rows, k, n), picks.drop_last()),
            deal(rows, k, n)[picks.last()],
        ) is None,
{
    let held = picked(deal(rows, k, n), picks.drop_last());
    let new = deal(rows, k, n)[picks.last()];
    assert(distinct_custodians(picks.drop_last(), n));
    shares_of_one_split_are_consistent(rows, k, n, picks.drop_last());
    shares_of_one_split_are_consistent(rows, k, n, picks);
    assert(held.push(new) =~= picked(deal(rows, k, n), picks));
    taken_iff_standing_together(held, new);
}

/// What every collector holds has distinct coordinates other than 0, one threshold and one
/// length, and its threshold is met exactly with enough for the policy and for the shares.
pub proof fn collectors_hold_what_fits(collector: ShardCollector)
    ensures
        collector.wf() <==> collector.target() >= 1 && consistent(shares(collector.held())),
        collector.wf() ==> (collector.met() <==> collector.held().len() >= collector.target()
            && collector.held().len() >= collector.held()[0]@.threshold),
{
    if collector.wf() && collector.held().len() > 0 {
        assert(shares(collector.held())[0] == collector.held()[0]@);
    }
}

} // verus!
