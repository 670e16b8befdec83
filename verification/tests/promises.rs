use custodes::{
    reconstruct, split, Custodian, Error, RecoveryPolicy, RecoveryPolicyBuilder, RecoveryRequest,
    Rng, Shard, ShardCollector,
};

/// A predictable counter, for tests only.
struct CountRng(u8);

impl Rng for CountRng {
    fn fill(&mut self, out: &mut [u8]) {
        for b in out {
            self.0 = self.0.wrapping_add(0x53);
            *b = self.0;
        }
    }
}

/// Plays back given bytes and records the buffers it was handed.
struct ScriptRng {
    bytes: Vec<u8>,
    seen: Vec<Vec<u8>>,
}

impl Rng for ScriptRng {
    fn fill(&mut self, out: &mut [u8]) {
        self.seen.push(out.to_vec());
        for b in out {
            *b = self.bytes.remove(0);
        }
    }
}

fn builder(n: usize) -> RecoveryPolicyBuilder {
    let custodians = (0..n).map(|i| Custodian::new(format!("c{i}"), [i as u8; 32])).collect();
    RecoveryPolicy::new().custodians(custodians)
}

fn policy(k: u8, n: usize) -> RecoveryPolicy {
    builder(n).threshold(k).build().unwrap()
}

fn shards_of(secret: &[u8], k: u8, n: usize) -> Vec<Shard> {
    split(secret, &policy(k, n), &mut CountRng(5)).unwrap()
}

#[test]
fn policies_are_refused_in_order() {
    assert_eq!(builder(0).threshold(0).build().unwrap_err(), Error::ZeroThreshold);
    assert_eq!(builder(0).threshold(3).build().unwrap_err(), Error::NoCustodians);
    assert_eq!(builder(256).threshold(3).build().unwrap_err(), Error::TooManyCustodians(256));
    assert_eq!(
        builder(4).threshold(5).build().unwrap_err(),
        Error::ThresholdExceedsCustodians { k: 5, n: 4 }
    );
    assert_eq!(builder(256).build().unwrap_err(), Error::ThresholdUnset);
}

#[test]
fn a_policy_keeps_what_was_set() {
    let pol = builder(1)
        .custodian(Custodian::new("mom", [7; 32]))
        .threshold(1)
        .threshold(2)
        .build()
        .unwrap();
    assert_eq!(pol.threshold(), 2);
    let handles: Vec<&str> = pol.custodians().iter().map(|c| c.handle.as_str()).collect();
    assert_eq!(handles, ["c0", "mom"]);
    assert_eq!(pol.custodians()[1].pubkey, [7; 32]);
    assert_eq!(pol.clone(), pol);
    let replaced = builder(3).custodians(vec![Custodian::new("a", [1; 32])]).clone();
    assert_eq!(replaced.threshold(1).build().unwrap().custodians(), [Custodian::new("a", [1; 32])]);
}

#[test]
fn a_request_is_plain_data() {
    let request = RecoveryRequest::new("me", [3; 32], 99);
    assert_eq!(request.handle, "me");
    assert_eq!(request.new_device_pubkey, [3; 32]);
    assert_eq!(request.at, 99);
    assert_eq!(RecoveryRequest::new(String::from("me"), [3; 32], 99), request.clone());
}

#[test]
fn shards_hold_the_values_of_the_polynomials() {
    let mut rng = ScriptRng { bytes: vec![7, 0x53], seen: vec![] };
    let shards = split(&[5, 5], &policy(2, 2), &mut rng).unwrap();
    // 5 + 7x and 5 + 0x53x, at 1 and at 2.
    assert_eq!(format!("{:?}", shards[0]), "Shard { index: 1, threshold: 2, body: [2, 86] }");
    assert_eq!(format!("{:?}", shards[1]), "Shard { index: 2, threshold: 2, body: [11, 163] }");
    assert_eq!(shards[0].threshold(), 2);
    assert_eq!(shards[0].len(), 2);
    assert!(!shards[0].is_empty());
}

#[test]
fn randomness_is_drawn_once_per_byte() {
    let mut rng = ScriptRng { bytes: vec![1, 2, 3, 4, 5, 6], seen: vec![] };
    split(b"abc", &policy(3, 4), &mut rng).unwrap();
    assert_eq!(rng.seen, [vec![0, 0], vec![1, 2], vec![3, 4]]);
    assert!(rng.bytes.is_empty());
    let mut rng = ScriptRng { bytes: vec![], seen: vec![] };
    split(b"abc", &policy(1, 4), &mut rng).unwrap();
    assert!(rng.seen.is_empty());
}

#[test]
fn an_empty_secret_is_refused() {
    let mut rng = CountRng(1);
    assert_eq!(split(b"", &policy(2, 3), &mut rng), Err(Error::EmptySecret));
    assert_eq!(rng.0, 1);
}

#[test]
fn every_subset_in_every_order_recovers() {
    let secret = b"\x00\xff any order";
    let shards = shards_of(secret, 3, 5);
    for a in 0..5 {
        for b in 0..5 {
            for c in 0..5 {
                if a != b && b != c && a != c {
                    let picked = [shards[a].clone(), shards[b].clone(), shards[c].clone()];
                    assert_eq!(reconstruct(&picked).unwrap(), secret);
                }
            }
        }
    }
    assert_eq!(reconstruct(&shards).unwrap(), secret);
}

#[test]
fn as_many_custodians_as_there_are_coordinates() {
    let shards = shards_of(b"s", 255, 255);
    assert_eq!(shards.len(), 255);
    assert_eq!(shards[254].index, 255);
    assert_eq!(reconstruct(&shards).unwrap(), b"s");
    assert_eq!(
        reconstruct(&shards[1..]),
        Err(Error::NotEnoughShards { have: 254, need: 255 })
    );
}

#[test]
fn reconstruction_names_the_first_fault() {
    let shards = shards_of(b"pair", 2, 4);
    let mut zero = shards[1].clone();
    zero.index = 0;
    let longer = shards_of(b"longer", 2, 4);
    let stricter = shards_of(b"pair", 3, 4);
    let of = |list: &[&Shard]| {
        let list: Vec<Shard> = list.iter().map(|s| (*s).clone()).collect();
        reconstruct(&list)
    };
    assert_eq!(of(&[]), Err(Error::NotEnoughShards { have: 0, need: 1 }));
    assert_eq!(of(&[&shards[0], &zero]), Err(Error::ZeroShardIndex));
    assert_eq!(of(&[&shards[0], &longer[1]]), Err(Error::MismatchedShards));
    assert_eq!(of(&[&shards[0], &stricter[1]]), Err(Error::MismatchedShards));
    assert_eq!(of(&[&shards[2], &shards[2]]), Err(Error::DuplicateShardIndex(3)));
    assert_eq!(of(&[&shards[2], &shards[2], &zero]), Err(Error::DuplicateShardIndex(3)));
    assert_eq!(of(&[&zero, &longer[1]]), Err(Error::ZeroShardIndex));
    assert_eq!(of(&[&shards[0]]), Err(Error::NotEnoughShards { have: 1, need: 2 }));
}

#[test]
fn only_the_first_shards_count() {
    let shards = shards_of(b"one", 2, 4);
    let other = shards_of(b"two", 2, 4);
    let mixed = [shards[0].clone(), shards[1].clone(), other[2].clone()];
    assert_eq!(reconstruct(&mixed).unwrap(), b"one");
}

#[test]
fn a_wrong_byte_corrupts_that_byte_only() {
    let honest = split(b"aa", &policy(2, 2), &mut ScriptRng { bytes: vec![7, 9], seen: vec![] }).unwrap();
    let forged = split(b"aa", &policy(2, 2), &mut ScriptRng { bytes: vec![7, 8], seen: vec![] }).unwrap();
    let recovered = reconstruct(&[honest[0].clone(), forged[1].clone()]).unwrap();
    assert_eq!(recovered[0], b'a');
    assert_ne!(recovered[1], b'a');
}

#[test]
fn one_share_below_threshold_fits_every_secret_equally() {
    // Under threshold 2, the share at 1 of each of two secrets takes every value exactly once.
    for secret in [0x00u8, 0x9c] {
        let mut counts = [0; 256];
        for r in 0..=255u8 {
            let mut rng = ScriptRng { bytes: vec![r], seen: vec![] };
            let shards = split(&[secret], &policy(2, 2), &mut rng).unwrap();
            let debug = format!("{:?}", shards[0]);
            let value = (0..256).find(|v| debug.ends_with(&format!("body: [{v}] }}"))).unwrap();
            counts[value] += 1;
        }
        assert_eq!(counts, [1; 256]);
    }
}

#[test]
fn a_collector_rejects_what_does_not_fit() {
    let shards = shards_of(b"pair", 2, 4);
    let mut zero = shards[1].clone();
    zero.index = 0;
    let mut c = ShardCollector::new(&policy(2, 4));
    assert!(c.shards().is_empty());
    assert_eq!(c.add(zero.clone()), Err(Error::ZeroShardIndex));
    c.add(shards[3].clone()).unwrap();
    assert_eq!(c.add(zero), Err(Error::ZeroShardIndex));
    assert_eq!(c.add(shards_of(b"longer", 2, 4)[3].clone()), Err(Error::MismatchedShards));
    assert_eq!(c.add(shards_of(b"pair", 3, 4)[0].clone()), Err(Error::MismatchedShards));
    assert_eq!(c.add(shards[3].clone()), Err(Error::DuplicateShardIndex(4)));
    assert_eq!(c.shards(), &shards[3..]);
    let mut d = c.clone();
    d.add(shards[0].clone()).unwrap();
    assert!(d.threshold_met() && !c.threshold_met());
    assert_eq!(reconstruct(d.shards()).unwrap(), b"pair");
}

#[test]
fn a_met_threshold_means_that_reconstruction_accepts() {
    // The shards ask for more than the policy: two are not enough, three are.
    let shards = shards_of(b"pair", 3, 5);
    let mut c = ShardCollector::new(&policy(2, 4));
    c.add(shards[0].clone()).unwrap();
    c.add(shards[1].clone()).unwrap();
    assert!(!c.threshold_met());
    assert_eq!(reconstruct(c.shards()), Err(Error::NotEnoughShards { have: 2, need: 3 }));
    c.add(shards[4].clone()).unwrap();
    assert!(c.threshold_met());
    assert_eq!(reconstruct(c.shards()).unwrap(), b"pair");
}

#[test]
fn a_collector_waits_for_as_many_as_its_policy_asks() {
    // The policy asks for more than the shards: it is the policy that counts.
    let shards = shards_of(b"pair", 2, 4);
    let mut c = ShardCollector::new(&policy(3, 4));
    assert!(!c.threshold_met());
    c.add(shards[0].clone()).unwrap();
    c.add(shards[1].clone()).unwrap();
    assert!(!c.threshold_met());
    c.add(shards[2].clone()).unwrap();
    assert!(c.threshold_met());
}

#[test]
fn messages() {
    let cases = [
        (Error::ThresholdUnset, "recovery policy has no threshold set"),
        (Error::ZeroThreshold, "threshold K must be at least 1"),
        (
            Error::ThresholdExceedsCustodians { k: 10, n: 9 },
            "threshold K=10 exceeds custodian count N=9",
        ),
        (
            Error::TooManyCustodians(1024),
            "1024 custodians — GF(2⁸) Shamir admits at most 255",
        ),
        (Error::NoCustodians, "recovery policy has no custodians"),
        (Error::EmptySecret, "cannot split an empty secret"),
        (
            Error::NotEnoughShards { have: 0, need: 255 },
            "have 0 shards, need 255 to reconstruct",
        ),
        (Error::MismatchedShards, "shards are not from the same split"),
        (Error::DuplicateShardIndex(37), "duplicate shard index 37"),
        (Error::ZeroShardIndex, "shard index 0 is the reserved secret coordinate"),
    ];
    for (error, text) in cases {
        assert_eq!(error.message(), text);
    }
    assert_eq!(
        Error::TooManyCustodians(usize::MAX).message(),
        format!("{} custodians — GF(2⁸) Shamir admits at most 255", usize::MAX)
    );
}
