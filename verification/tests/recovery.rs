use custodes::{reconstruct, split, Custodian, Error, RecoveryPolicy, Rng, Shard, ShardCollector};

/// A predictable counter, for tests only.
struct CountRng(u8);

impl Rng for CountRng {
    fn fill(&mut self, out: &mut [u8]) {
        for b in out {
            self.0 = self.0.wrapping_add(0x53);
            *b = self.0;
        }
    }
}

fn policy(k: u8, n: usize) -> RecoveryPolicy {
    let custodians = (0..n)
        .map(|i| Custodian::new(format!("c{i}"), [i as u8; 32]))
        .collect();
    RecoveryPolicy::new().threshold(k).custodians(custodians).build().unwrap()
}

#[test]
fn round_trip_any_k_of_n() {
    let secret = b"the identity recovery secret \x00\xff\x80 bytes";
    let pol = policy(3, 5);
    let mut rng = CountRng(0);
    let shards = split(secret, &pol, &mut rng).unwrap();
    assert_eq!(shards.len(), 5);
    // Every 3-of-5 subset reconstructs the original.
    for combo in [[0, 1, 2], [0, 2, 4], [1, 3, 4], [2, 3, 4]] {
        let subset: Vec<Shard> = combo.iter().map(|&i| shards[i].clone()).collect();
        assert_eq!(reconstruct(&subset).unwrap(), secret);
    }
}

#[test]
fn below_threshold_is_refused_not_garbage() {
    let pol = policy(3, 5);
    let mut rng = CountRng(7);
    let shards = split(b"secret", &pol, &mut rng).unwrap();
    let two: Vec<Shard> = shards[..2].to_vec();
    assert_eq!(reconstruct(&two), Err(Error::NotEnoughShards { have: 2, need: 3 }));
}

#[test]
fn threshold_one_is_trivial_share() {
    let pol = policy(1, 3);
    let mut rng = CountRng(1);
    let shards = split(b"x", &pol, &mut rng).unwrap();
    // K=1: any single shard reconstructs (no secrecy: valid but pointless).
    assert_eq!(reconstruct(&shards[1..2]).unwrap(), b"x");
}

#[test]
fn collector_dedups_and_gates() {
    let pol = policy(2, 4);
    let mut rng = CountRng(9);
    let shards = split(b"hello", &pol, &mut rng).unwrap();
    let mut c = ShardCollector::new(&pol);
    c.add(shards[0].clone()).unwrap();
    assert!(!c.threshold_met());
    assert_eq!(c.add(shards[0].clone()), Err(Error::DuplicateShardIndex(shards[0].index)));
    c.add(shards[2].clone()).unwrap();
    assert!(c.threshold_met());
    assert_eq!(reconstruct(c.shards()).unwrap(), b"hello");
}

#[test]
fn policy_invariants() {
    assert_eq!(RecoveryPolicy::new().custodians(vec![]).build().unwrap_err(), Error::ThresholdUnset);
    assert_eq!(
        RecoveryPolicy::new().threshold(0).custodian(Custodian::new("a", [0; 32])).build().unwrap_err(),
        Error::ZeroThreshold
    );
    assert_eq!(
        RecoveryPolicy::new().threshold(2).custodian(Custodian::new("a", [0; 32])).build().unwrap_err(),
        Error::ThresholdExceedsCustodians { k: 2, n: 1 }
    );
}
