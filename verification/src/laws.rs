//! What splitting, collecting and reconstructing promise together.

use crate::answers::any_coefficients_can_be_drawn;
use crate::error::Error;
use crate::gf256::{times_zero, xor_rules};
use crate::polynomial::{
    blinding, blinding_blinds, eval, eval_at_zero, eval_empty, eval_horner, eval_plus, evals,
    interpolation_is_exact, interpolation_is_sensitive, plus,
};
use crate::shard::collector::{rejection, ShardCollector};
use crate::shard::reconstruct::{
    consistent, fault, faultless_is_consistent, first_fault, index_taken, points, recovered,
    refusal, values,
};
use crate::shard::split::{deal, deal_one, drawn, hides, Rng};
use crate::shard::{shares, Share};
use vstd::prelude::*;

verus! {

// When reconstruction is refused.

proof fn first_fault_finds(s: Seq<Share>, start: int)
    requires
        0 <= start,
    ensures
        first_fault(s, start) is None <==> (forall|i: int|
            start <= i < s.len() ==> #[trigger] fault(s, i) is None),
    decreases s.len() - start,
{
    if start < s.len() {
        first_fault_finds(s, start + 1);
        if fault(s, start) is None && first_fault(s, start + 1) is None {
            assert forall|i: int| start <= i < s.len() implies #[trigger] fault(s, i) is None by {
                if i > start {
                    assert(fault(s, i) is None);
                }
            }
        }
    }
}

/// Shares have no fault exactly where they can stand together: distinct x-coordinates
/// other than 0, one threshold, one length.
pub proof fn faultless_iff_consistent(s: Seq<Share>)
    requires
        s.len() > 0,
    ensures
        first_fault(s, 0) is None <==> consistent(s),
{
    first_fault_finds(s, 0);
    if consistent(s) {
        let xs = points(s, s.len());
        assert forall|i: int| 0 <= i < s.len() implies #[trigger] fault(s, i) is None by {
            assert(s[i].threshold == s[0].threshold);
            assert forall|j: int| 0 <= j < i implies (#[trigger] s[j]).index != s[i].index by {
                assert(xs[j] != xs[i]);
            }
        }
    } else if first_fault(s, 0) is None {
        faultless_is_consistent(s);
    }
}

/// Reconstruction succeeds exactly on consistent shares, at least one, and at least as
/// many as the threshold that they record.
pub proof fn accepted_iff_enough_and_consistent(s: Seq<Share>)
    ensures
        refusal(s) is None <==> s.len() > 0 && consistent(s) && s.len() >= s[0].threshold,
{
    if s.len() > 0 {
        faultless_iff_consistent(s);
    }
}

/// What a recovered byte is: the constant term of any polynomial with at most `K`
/// coefficients that has the values of the first `K` shares at their x-coordinates.
pub proof fn recovered_byte_is_the_constant_term(s: Seq<Share>, pos: int, row: Seq<u8>)
    requires
        refusal(s) is None,
        0 <= pos < s[0].body.len(),
        0 < row.len() <= s[0].threshold,
        forall|i: int|
            0 <= i < s[0].threshold ==> eval(row, (#[trigger] s[i]).index) == s[i].body[pos],
    ensures
        recovered(s)[pos] == row[0],
{
    let k = s[0].threshold as nat;
    let xs = points(s, k);
    accepted_iff_enough_and_consistent(s);
    assert forall|i: int, j: int| 0 <= i < j < xs.len() implies xs[i] != xs[j] by {
        assert(points(s, s.len())[i] != points(s, s.len())[j]);
    }
    assert forall|i: int| 0 <= i < k implies values(s, k, pos)[i] == evals(row, xs)[i] by {
        assert(eval(row, s[i].index) == s[i].body[pos]);
    }
    assert(values(s, k, pos) =~= evals(row, xs));
    interpolation_is_exact(row, xs);
    eval_at_zero(row);
}

// Splitting and reconstructing.

/// The shares of some custodians, in any order; `picks` numbers the custodians from 0.
pub open spec fn picked(all: Seq<Share>, picks: Seq<int>) -> Seq<Share> {
    Seq::new(picks.len(), |i: int| all[picks[i]])
}

/// Different custodians out of `n`.
pub open spec fn distinct_custodians(picks: Seq<int>, n: nat) -> bool {
    &&& picks.no_duplicates()
    &&& forall|i: int| 0 <= i < picks.len() ==> 0 <= #[trigger] picks[i] < n
}

/// The shares of different custodians out of one split can stand together.
pub proof fn shares_of_one_split_are_consistent(
    rows: Seq<Seq<u8>>,
    k: u8,
    n: nat,
    picks: Seq<int>,
)
    requires
        n <= 255,
        distinct_custodians(picks, n),
    ensures
        consistent(picked(deal(rows, k, n), picks)),
{
    let s = picked(deal(rows, k, n), picks);
    let xs = points(s, s.len());
    assert forall|i: int| 0 <= i < s.len() implies #[trigger] s[i] == deal_one(
        rows,
        k,
        (picks[i] + 1) as u8,
    ) && s[i].index != 0 by {
        assert(0 <= picks[i] < n);
    }
    assert forall|i: int, j: int| 0 <= i < j < s.len() implies xs[i] != xs[j] by {
        assert(0 <= picks[i] < n && 0 <= picks[j] < n);
        assert(picks[i] != picks[j]);
        assert(s[i].index == (picks[i] + 1) as u8 && s[j].index == (picks[j] + 1) as u8);
    }
}

/// The round trip: whatever the random coefficients were, the shares of any `K` or more
/// custodians, in any order, reconstruct the secret.
pub proof fn any_threshold_of_shares_recovers(
    rows: Seq<Seq<u8>>,
    secret: Seq<u8>,
    k: u8,
    n: nat,
    picks: Seq<int>,
)
    requires
        1 <= k <= n <= 255,
        hides(rows, secret, k),
        distinct_custodians(picks, n),
        picks.len() >= k,
    ensures
        refusal(picked(deal(rows, k, n), picks)) is None,
        recovered(picked(deal(rows, k, n), picks)) == secret,
{
    let s = picked(deal(rows, k, n), picks);
    shares_of_one_split_are_consistent(rows, k, n, picks);
    accepted_iff_enough_and_consistent(s);
    assert(s[0] == deal(rows, k, n)[picks[0]]);
    assert forall|pos: int| 0 <= pos < secret.len() implies #[trigger] recovered(s)[pos]
        == secret[pos] by {
        assert forall|i: int| 0 <= i < k implies eval(rows[pos], (#[trigger] s[i]).index)
            == s[i].body[pos] by {
            assert(0 <= picks[i] < n);
        }
        recovered_byte_is_the_constant_term(s, pos, rows[pos]);
    }
    assert(recovered(s) =~= secret);
}

/// The shares of fewer than `K` custodians are refused, with the numbers: there is no
/// garbage in the place of the secret.
pub proof fn too_few_shares_are_refused(
    rows: Seq<Seq<u8>>,
    k: u8,
    n: nat,
    picks: Seq<int>,
)
    requires
        1 <= k <= n <= 255,
        distinct_custodians(picks, n),
        picks.len() < k,
    ensures
        refusal(picked(deal(rows, k, n), picks)) == Some(
            Error::NotEnoughShards {
                have: picks.len() as usize,
                need: if picks.len() == 0 { 1 } else { k },
            },
        ),
{
    let s = picked(deal(rows, k, n), picks);
    if s.len() > 0 {
        shares_of_one_split_are_consistent(rows, k, n, picks);
        faultless_iff_consistent(s);
        assert(0 <= picks[0] < n);
    }
}

/// Only the first `K` shares count.
pub proof fn further_shares_do_not_matter(s: Seq<Share>)
    requires
        refusal(s) is None,
        s[0].threshold >= 1,
    ensures
        recovered(s.take(s[0].threshold as int)) == recovered(s),
{
    let k = s[0].threshold as nat;
    let t = s.take(k as int);
    assert(points(t, k) =~= points(s, k));
    assert forall|pos: int| 0 <= pos < s[0].body.len() implies #[trigger] recovered(t)[pos]
        == recovered(s)[pos] by {
        assert(values(t, k, pos) =~= values(s, k, pos));
    }
    assert(recovered(t) =~= recovered(s));
}

/// With threshold 1 every share is the secret itself.
pub proof fn threshold_one_shares_the_secret_itself(rows: Seq<Seq<u8>>, secret: Seq<u8>, x: u8)
    requires
        hides(rows, secret, 1),
    ensures
        deal_one(rows, 1, x).body == secret,
{
    assert forall|pos: int| 0 <= pos < secret.len() implies #[trigger] deal_one(rows, 1, x).body[pos]
        == secret[pos] by {
        let row = rows[pos];
        assert(row.drop_first() =~= Seq::empty());
        eval_horner(row, x);
        eval_empty(x);
        times_zero(x);
        xor_rules(row[0], 0, 0);
    }
    assert(deal_one(rows, 1, x).body =~= secret);
}

/// There is no integrity check: one wrong byte in one of the shards that are used goes
/// unnoticed, and makes exactly that byte of the output wrong.
pub proof fn tampering_goes_unnoticed_and_corrupts(s: Seq<Share>, i: int, pos: int, byte: u8)
    requires
        refusal(s) is None,
        0 <= i < s[0].threshold,
        0 <= pos < s[0].body.len(),
        byte != s[i].body[pos],
    ensures
        ({
            let tampered = s.update(i, Share { body: s[i].body.update(pos, byte), ..s[i] });
            &&& refusal(tampered) is None
            &&& recovered(tampered).len() == recovered(s).len()
            &&& forall|p: int|
                0 <= p < s[0].body.len() ==> ((#[trigger] recovered(tampered)[p] == recovered(s)[p])
                    <==> p != pos)
        }),
{
    let t = s.update(i, Share { body: s[i].body.update(pos, byte), ..s[i] });
    let k = s[0].threshold as nat;
    let xs = points(s, k);
    accepted_iff_enough_and_consistent(s);
    assert(forall|j: int|
        0 <= j < s.len() ==> (#[trigger] t[j]).index == s[j].index && t[j].threshold
            == s[j].threshold && t[j].body.len() == s[j].body.len());
    assert(points(t, t.len()) =~= points(s, s.len()));
    assert(points(t, k) =~= xs);
    accepted_iff_enough_and_consistent(t);
    assert forall|a: int, b: int| 0 <= a < b < xs.len() implies xs[a] != xs[b] by {
        assert(points(s, s.len())[a] != points(s, s.len())[b]);
    }
    assert forall|p: int| 0 <= p < s[0].body.len() implies ((#[trigger] recovered(t)[p]
        == recovered(s)[p]) <==> p != pos) by {
        if p != pos {
            assert(values(t, k, p) =~= values(s, k, p));
        } else {
            assert(s[i].body.len() == s[0].body.len());
            interpolation_is_sensitive(xs, values(s, k, p), values(t, k, p), i);
        }
    }
}

// Secrecy.

/// The polynomials to add to those of one secret for those of another, unseen at `xs`.
pub open spec fn exchange(secret: Seq<u8>, other: Seq<u8>, xs: Seq<u8>, k: u8) -> Seq<Seq<u8>> {
    Seq::new(secret.len(), |pos: int| blinding(xs, secret[pos] ^ other[pos], k as nat))
}

/// Polynomials added up one by one.
pub open spec fn added(rows: Seq<Seq<u8>>, masks: Seq<Seq<u8>>) -> Seq<Seq<u8>> {
    Seq::new(rows.len(), |pos: int| plus(rows[pos], masks[pos]))
}

/// Fewer than `K` shares reveal nothing. Take any x-coordinates `xs`, fewer than `K`, and
/// any two secrets of one length. Adding the same polynomials to every choice of
/// coefficients that hides the first secret turns it into one that hides the other and
/// gives the same shares at `xs`; adding them again turns it back, and they are the same
/// polynomials for the way from the other secret to the first. So whatever the shares at
/// `xs` are, as many choices of coefficients lead to them from the one secret as from the
/// other: where the coefficients are drawn uniformly, every secret is as likely.
pub proof fn fewer_than_threshold_reveal_nothing(
    rows: Seq<Seq<u8>>,
    secret: Seq<u8>,
    other: Seq<u8>,
    k: u8,
    xs: Seq<u8>,
)
    requires
        hides(rows, secret, k),
        other.len() == secret.len(),
        xs.len() < k,
        forall|i: int| 0 <= i < xs.len() ==> #[trigger] xs[i] != 0,
    ensures
        hides(added(rows, exchange(secret, other, xs, k)), other, k),
        forall|i: int|
            0 <= i < xs.len() ==> deal_one(
                added(rows, exchange(secret, other, xs, k)),
                k,
                #[trigger] xs[i],
            ) == deal_one(rows, k, xs[i]),
        added(added(rows, exchange(secret, other, xs, k)), exchange(secret, other, xs, k)) == rows,
        exchange(other, secret, xs, k) == exchange(secret, other, xs, k),
{
    let masks = exchange(secret, other, xs, k);
    let alt = added(rows, masks);
    assert forall|pos: int| 0 <= pos < rows.len() implies (#[trigger] alt[pos]).len() == k
        && alt[pos][0] == other[pos] && (forall|i: int|
        0 <= i < xs.len() ==> eval(alt[pos], #[trigger] xs[i]) == eval(rows[pos], xs[i])) by {
        let d = secret[pos] ^ other[pos];
        blinding_blinds(xs, d, k as nat);
        assert(rows[pos].len() == k);
        xor_rules(secret[pos], other[pos], 0);
        xor_rules(secret[pos], secret[pos], other[pos]);
        xor_rules(other[pos], 0, 0);
        assert forall|i: int| 0 <= i < xs.len() implies eval(alt[pos], #[trigger] xs[i]) == eval(
            rows[pos],
            xs[i],
        ) by {
            eval_plus(rows[pos], masks[pos], xs[i]);
            xor_rules(eval(rows[pos], xs[i]), 0, 0);
        }
    }
    assert forall|i: int| 0 <= i < xs.len() implies deal_one(alt, k, #[trigger] xs[i]) == deal_one(
        rows,
        k,
        xs[i],
    ) by {
        assert(deal_one(alt, k, xs[i]).body =~= deal_one(rows, k, xs[i]).body);
    }
    assert forall|pos: int| 0 <= pos < secret.len() implies exchange(other, secret, xs, k)[pos]
        == masks[pos] by {
        xor_rules(secret[pos], other[pos], 0);
    }
    assert(exchange(other, secret, xs, k) =~= masks);
    let back = added(alt, masks);
    assert forall|pos: int| 0 <= pos < rows.len() implies back[pos] == rows[pos] by {
        blinding_blinds(xs, secret[pos] ^ other[pos], k as nat);
        assert(rows[pos].len() == k);
        assert forall|j: int| 0 <= j < k implies back[pos][j] == rows[pos][j] by {
            xor_rules(rows[pos][j], masks[pos][j], 0);
        }
        assert(back[pos] =~= rows[pos]);
    }
    assert(back =~= rows);
}

/// The coefficients that `fewer_than_threshold_reveal_nothing` exchanges are ones that can
/// be drawn: from a source that may fill in anything, the one choice may come as well as
/// the other.
pub proof fn exchanged_coefficients_can_be_drawn<R: Rng>(
    rows: Seq<Seq<u8>>,
    secret: Seq<u8>,
    other: Seq<u8>,
    k: u8,
    xs: Seq<u8>,
    source: R,
)
    requires
        hides(rows, secret, k),
        other.len() == secret.len(),
        xs.len() < k,
        forall|i: int| 0 <= i < xs.len() ==> #[trigger] xs[i] != 0,
        forall|buffer: Seq<u8>, out: Seq<u8>|
            buffer.len() == out.len() ==> #[trigger] source.fills(&source, buffer, out),
    ensures
        drawn(rows, Seq::new(rows.len() + 1, |i: int| source), k, source, source),
        drawn(
            added(rows, exchange(secret, other, xs, k)),
            Seq::new(rows.len() + 1, |i: int| source),
            k,
            source,
            source,
        ),
{
    let alt = added(rows, exchange(secret, other, xs, k));
    let states = Seq::new(rows.len() + 1, |i: int| source);
    fewer_than_threshold_reveal_nothing(rows, secret, other, k, xs);
    any_coefficients_can_be_drawn(rows, secret, k, source);
    any_coefficients_can_be_drawn(alt, other, k, source);
    assert(states =~= Seq::new(alt.len() + 1, |i: int| source));
}

// Collecting.

/// A share that is already held is turned away as a duplicate.
pub proof fn held_shares_are_duplicates(held: Seq<Share>, i: int)
    requires
        consistent(held),
        0 <= i < held.len(),
    ensures
        rejection(held, held[i]) == Some(Error::DuplicateShardIndex(held[i].index)),
{
    assert(held[0].threshold == held[i].threshold);
    assert(index_taken(held, held.len() as int, held[i].index));
}

/// Once its threshold is met, what a collector holds is ready for reconstruction, which
/// accepts it.
pub proof fn met_threshold_means_ready(collector: ShardCollector)
    requires
        collector.wf(),
        collector.met(),
    ensures
        refusal(shares(collector.held())) is None,
{
    accepted_iff_enough_and_consistent(shares(collector.held()));
}

/// A collector that holds as many shares of one split under its policy as the policy asks
/// for has met its threshold, and holds the secret.
pub proof fn collected_shares_recover(
    collector: ShardCollector,
    rows: Seq<Seq<u8>>,
    secret: Seq<u8>,
    n: nat,
    picks: Seq<int>,
)
    requires
        collector.wf(),
        collector.target() <= n <= 255,
        hides(rows, secret, collector.target()),
        forall|i: int| 0 <= i < picks.len() ==> 0 <= #[trigger] picks[i] < n,
        shares(collector.held()) == picked(deal(rows, collector.target(), n), picks),
        collector.held().len() >= collector.target(),
    ensures
        collector.met(),
        refusal(shares(collector.held())) is None,
        recovered(shares(collector.held())) == secret,
{
    let s = shares(collector.held());
    assert forall|i: int, j: int| 0 <= i < j < picks.len() implies picks[i] != picks[j] by {
        assert(points(s, s.len())[i] != points(s, s.len())[j]);
    }
    any_threshold_of_shares_recovers(rows, secret, collector.target(), n, picks);
    assert(0 <= picks[0] < n);
}

} // verus!
