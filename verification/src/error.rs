//! What can go wrong, and how it reads.

use vstd::prelude::*;

verus! {

/// Result alias for the crate's [`Error`].
pub type Result<T> = core::result::Result<T, Error>;

/// Everything that can go wrong building a policy, splitting, or reconstructing.
#[derive(Debug, Clone, PartialEq, Eq)]
pub enum Error {
    /// `RecoveryPolicyBuilder::build` was called without a threshold set.
    ThresholdUnset,
    /// Threshold `K` was zero; a zero-of-N policy can never reconstruct.
    ZeroThreshold,
    /// Threshold `K` exceeds the custodian count `N`; the secret could never be reassembled.
    ThresholdExceedsCustodians { k: u8, n: usize },
    /// More than 255 custodians; there are only 255 coordinates other than 0 in GF(2^8).
    TooManyCustodians(usize),
    /// A policy with no custodians was built.
    NoCustodians,
    /// `split` was handed an empty secret; there is nothing to share.
    EmptySecret,
    /// Reconstruction was attempted with fewer than `need` distinct shards.
    NotEnoughShards { have: usize, need: u8 },
    /// Shards disagree on body length or recorded threshold: they are not from one split.
    MismatchedShards,
    /// Two shards carry the same x-coordinate; one is a duplicate or a forgery.
    DuplicateShardIndex(u8),
    /// A shard carries index 0, the coordinate of the secret: never a valid share.
    ZeroShardIndex,
}

/// The decimal digits of `n`, without leading zeros.
pub open spec fn decimal(n: nat) -> Seq<char>
    decreases n,
{
    if n < 10 {
        seq![digit(n)]
    } else {
        decimal(n / 10).push(digit(n % 10))
    }
}

/// The digit `d`, for `d` below ten.
pub open spec fn digit(d: nat) -> char {
    (('0' as u32) + d) as char
}

impl Error {
    /// The sentence that describes the error.
    pub open spec fn text(self) -> Seq<char> {
        match self {
            Error::ThresholdUnset => "recovery policy has no threshold set"@,
            Error::ZeroThreshold => "threshold K must be at least 1"@,
            Error::ThresholdExceedsCustodians { k, n } => "threshold K="@ + decimal(k as nat)
                + " exceeds custodian count N="@ + decimal(n as nat),
            Error::TooManyCustodians(n) => decimal(n as nat)
                + " custodians — GF(2⁸) Shamir admits at most 255"@,
            Error::NoCustodians => "recovery policy has no custodians"@,
            Error::EmptySecret => "cannot split an empty secret"@,
            Error::NotEnoughShards { have, need } => "have "@ + decimal(have as nat)
                + " shards, need "@ + decimal(need as nat) + " to reconstruct"@,
            Error::MismatchedShards => "shards are not from the same split"@,
            Error::DuplicateShardIndex(i) => "duplicate shard index "@ + decimal(i as nat),
            Error::ZeroShardIndex => "shard index 0 is the reserved secret coordinate"@,
        }
    }

    /// The sentence that describes the error, for people to read.
    pub fn message(&self) -> (message: String)
        ensures
            message@ == self.text(),
    {
        let message: String = match self {
            Error::ThresholdUnset => String::from("recovery policy has no threshold set"),
            Error::ZeroThreshold => String::from("threshold K must be at least 1"),
            Error::ThresholdExceedsCustodians { k, n } => {
                let mut text: String = String::from("threshold K=");
                append_decimal(&mut text, *k as usize);
                text.append(" exceeds custodian count N=");
                append_decimal(&mut text, *n);
                text
            },
            Error::TooManyCustodians(n) => {
                let mut text: String = String::new();
                append_decimal(&mut text, *n);
                text.append(" custodians — GF(2⁸) Shamir admits at most 255");
                text
            },
            Error::NoCustodians => String::from("recovery policy has no custodians"),
            Error::EmptySecret => String::from("cannot split an empty secret"),
            Error::NotEnoughShards { have, need } => {
                let mut text: String = String::from("have ");
                append_decimal(&mut text, *have);
                text.append(" shards, need ");
                append_decimal(&mut text, *need as usize);
                text.append(" to reconstruct");
                text
            },
            Error::MismatchedShards => String::from("shards are not from the same split"),
            Error::DuplicateShardIndex(i) => {
                let mut text: String = String::from("duplicate shard index ");
                append_decimal(&mut text, *i as usize);
                text
            },
            Error::ZeroShardIndex => {
                String::from("shard index 0 is the reserved secret coordinate")
            },
        };
        proof {
            assert(message@ =~= self.text());
        }
        message
    }
}

/// Decimal is what it should be: a single digit stands for itself, and any digit appended
/// makes ten times the number, and the digit.
pub proof fn decimal_is_positional(q: nat, d: nat)
    requires
        d < 10,
    ensures
        decimal(d).len() == 1,
        decimal(d)[0] as u32 == '0' as u32 + d,
        q > 0 ==> decimal(10 * q + d).len() == decimal(q).len() + 1,
        q > 0 ==> decimal(10 * q + d).drop_last() == decimal(q),
        q > 0 ==> decimal(10 * q + d).last() as u32 == '0' as u32 + d,
{
    if q > 0 {
        let n = 10 * q + d;
        assert(n / 10 == q && n % 10 == d);
        assert(decimal(n) == decimal(q).push(digit(d)));
        assert(decimal(n).drop_last() =~= decimal(q));
    }
}

/// Different numbers read differently.
pub proof fn decimal_tells_numbers_apart(m: nat, n: nat)
    requires
        decimal(m) == decimal(n),
    ensures
        m == n,
    decreases m,
{
    decimal_is_positional(m / 10, m % 10);
    decimal_is_positional(n / 10, n % 10);
    decimal_is_never_empty(m / 10);
    decimal_is_never_empty(n / 10);
    if m >= 10 && n >= 10 {
        decimal_tells_numbers_apart(m / 10, n / 10);
    }
}

proof fn decimal_is_never_empty(n: nat)
    ensures
        decimal(n).len() > 0,
{
}

/// Each message names the numbers of its error, in their places.
pub proof fn messages_name_the_numbers(k: u8, n: usize)
    ensures
        (Error::ThresholdExceedsCustodians { k, n }).text() == "threshold K="@ + decimal(k as nat)
            + " exceeds custodian count N="@ + decimal(n as nat),
        Error::TooManyCustodians(n).text() == decimal(n as nat)
            + " custodians — GF(2⁸) Shamir admits at most 255"@,
        (Error::NotEnoughShards { have: n, need: k }).text() == "have "@ + decimal(n as nat)
            + " shards, need "@ + decimal(k as nat) + " to reconstruct"@,
        Error::DuplicateShardIndex(k).text() == "duplicate shard index "@ + decimal(k as nat),
        Error::ThresholdUnset.text() == "recovery policy has no threshold set"@,
        Error::ZeroThreshold.text() == "threshold K must be at least 1"@,
        Error::NoCustodians.text() == "recovery policy has no custodians"@,
        Error::EmptySecret.text() == "cannot split an empty secret"@,
        Error::MismatchedShards.text() == "shards are not from the same split"@,
        Error::ZeroShardIndex.text() == "shard index 0 is the reserved secret coordinate"@,
{
}

/// Appends `n` in decimal.
fn append_decimal(text: &mut String, n: usize)
    ensures
        final(text)@ == old(text)@ + decimal(n as nat),
    decreases n,
{
    if n >= 10 {
        append_decimal(text, n / 10);
    }
    append_digit(text, n % 10);
    proof {
        assert(text@ =~= old(text)@ + decimal(n as nat));
    }
}

/// Appends the digit `d`.
fn append_digit(text: &mut String, d: usize)
    requires
        d < 10,
    ensures
        final(text)@ == old(text)@.push(digit(d as nat)),
{
    let numeral: &str = match d {
        0 => "0",
        1 => "1",
        2 => "2",
        3 => "3",
        4 => "4",
        5 => "5",
        6 => "6",
        7 => "7",
        8 => "8",
        _ => "9",
    };
    proof {
        reveal_strlit("0");
        reveal_strlit("1");
        reveal_strlit("2");
        reveal_strlit("3");
        reveal_strlit("4");
        reveal_strlit("5");
        reveal_strlit("6");
        reveal_strlit("7");
        reveal_strlit("8");
        reveal_strlit("9");
        assert(numeral@ =~= seq![digit(d as nat)]);
    }
    text.append(numeral);
    proof {
        assert(text@ =~= old(text)@.push(digit(d as nat)));
    }
}

} // verus!
