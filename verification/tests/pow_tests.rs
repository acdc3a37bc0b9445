//! Tests of the proof-of-work codec, difficulty test, verifier, miner, the
//! mining-worker step, and the block-miner extraction of the reward hook.

use siip_node::pow::hash_meets_difficulty;
use siip_node::pow::mine;
use siip_node::pow::verify_seal;
use siip_node::pow::Compute;
use siip_node::pow::MinimalSha3Algorithm;
use siip_node::pow::Seal;
use siip_node::pow::Sha3Algorithm;
use siip_node::pow::H256;
use siip_node::pow::U256;
use siip_node::reward::get_block_miner;
use siip_node::reward::DigestItem;
use siip_node::worker::mining_step;
use siip_node::worker::submission_is_current;
use siip_node::worker::MinerStep;
use siip_node::worker::MiningMetadata;

fn h(byte: u8) -> H256 {
    H256::from_bytes(vec![byte; 32])
}

#[test]
fn difficulty_test_edges() {
    // difficulty zero admits everything, even the all-ones hash
    assert!(hash_meets_difficulty(&h(0xff), U256::from_u64(0)));
    // difficulty one admits everything: the product is the hash itself
    assert!(hash_meets_difficulty(&h(0xff), U256::from_u64(1)));
    // difficulty two rejects the all-ones hash: the product overflows
    assert!(!hash_meets_difficulty(&h(0xff), U256::from_u64(2)));
    // the zero hash meets the largest difficulty
    assert!(hash_meets_difficulty(&h(0), U256 { lo: u128::MAX, hi: u128::MAX }));
    // a hash of exactly 2^255 meets difficulty 1 but not difficulty 2
    let mut half = vec![0u8; 32];
    half[0] = 0x80;
    let half = H256::from_bytes(half);
    assert!(hash_meets_difficulty(&half, U256::from_u64(1)));
    assert!(!hash_meets_difficulty(&half, U256::from_u64(2)));
}

#[test]
fn seal_codec_round_trip() {
    let seal = Seal {
        difficulty: U256 { lo: 123456789, hi: 42 },
        work: h(7),
        nonce: h(9),
    };
    let encoded = seal.encode();
    assert_eq!(encoded.len(), 96);
    let decoded = Seal::decode(encoded.as_slice()).unwrap();
    assert!(decoded.matches(&seal));

    // fewer than 96 bytes fail closed
    assert!(Seal::decode(&encoded[..95]).is_none());
    assert!(Seal::decode(&[]).is_none());
}

#[test]
fn verify_round_trip() {
    let pre_hash = h(3);
    let difficulty = U256::from_u64(1);
    let compute = Compute {
        difficulty,
        pre_hash: pre_hash.duplicate(),
        nonce: h(5),
    };
    let seal = compute.compute();
    let encoded = seal.encode();

    // difficulty one is always met, so the round trip verifies
    assert!(verify_seal(&pre_hash, difficulty, encoded.as_slice()));

    // a different pre-hash makes the recomputed seal disagree
    assert!(!verify_seal(&h(4), difficulty, encoded.as_slice()));

    // mutating any single byte of the encoding makes verification fail
    for i in 0..96 {
        let mut tampered = encoded.clone();
        tampered[i] ^= 1;
        assert!(!verify_seal(&pre_hash, difficulty, tampered.as_slice()));
    }

    // malformed bytes fail closed
    assert!(!verify_seal(&pre_hash, difficulty, &encoded[..40]));
}

#[test]
fn mine_budget_and_trivial_difficulty() {
    let pre_hash = h(1);
    // no attempts, no seal
    assert!(mine(&pre_hash, U256::from_u64(0), 0).is_none());
    // difficulty zero is met by the first attempt
    let sealed = mine(&pre_hash, U256::from_u64(0), 1).unwrap();
    assert!(verify_seal(&pre_hash, U256::from_u64(0), sealed.as_slice()));
    // difficulty one as well, and the seal verifies
    let sealed = mine(&pre_hash, U256::from_u64(1), 1).unwrap();
    assert!(verify_seal(&pre_hash, U256::from_u64(1), sealed.as_slice()));
}

#[test]
fn minimal_algorithm() {
    let algorithm = MinimalSha3Algorithm;
    let parent = h(0);
    let difficulty = algorithm.difficulty(&parent);
    assert_eq!(difficulty, U256::from_u64(1000000));

    // at difficulty one million about one nonce in a million succeeds, so one
    // round rarely finds a seal; whenever it does, the seal verifies
    let pre_hash = h(2);
    match algorithm.mine(&pre_hash, difficulty, 1000) {
        Some(sealed) => {
            assert!(algorithm.verify(&pre_hash, sealed.as_slice(), difficulty));
        }
        None => {}
    }
}

#[test]
fn runtime_algorithm_verifies() {
    let algorithm = Sha3Algorithm::new(());
    let pre_hash = h(3);
    let difficulty = U256::from_u64(1);
    let seal = Compute {
        difficulty,
        pre_hash: pre_hash.duplicate(),
        nonce: h(8),
    }
    .compute()
    .encode();
    assert!(algorithm.verify(&pre_hash, seal.as_slice(), difficulty));
    assert!(!algorithm.verify(&h(4), seal.as_slice(), difficulty));
}

#[test]
fn worker_step() {
    // without a candidate block the worker has nothing to do
    assert!(matches!(mining_step(&None, 1000), MinerStep::NoWork));

    let meta = Some(MiningMetadata {
        best_hash: h(1),
        pre_hash: h(2),
        pre_runtime: None,
        difficulty: U256::from_u64(1),
    });
    // difficulty one is met at once, so the round finds a seal that verifies
    match mining_step(&meta, 10) {
        MinerStep::Found(sealed) => {
            assert!(verify_seal(&h(2), U256::from_u64(1), sealed.as_slice()));
        }
        _ => panic!("a trivial difficulty must be met"),
    }

    // a solution is only current while the candidate it was mined against is
    assert!(submission_is_current(&meta, &h(1)));
    assert!(!submission_is_current(&meta, &h(9)));
    assert!(!submission_is_current(&None, &h(1)));
}

#[test]
fn block_miner_extraction() {
    let pow = b"pow_".to_vec();
    let mut account = vec![0u8; 8];
    account[0] = 5;

    // the first well-formed proof-of-work item wins
    let digest = vec![
        DigestItem::Other(vec![1, 2, 3]),
        DigestItem::PreRuntime(b"aura".to_vec(), account.clone()),
        DigestItem::PreRuntime(pow.clone(), vec![1, 2]),
        DigestItem::PreRuntime(pow.clone(), account.clone()),
        DigestItem::PreRuntime(pow.clone(), vec![9; 8]),
    ];
    assert_eq!(get_block_miner(&digest), Some(5));

    // with no miner digest, fees go to nobody
    assert_eq!(get_block_miner(&Vec::new()), None);
    let digest = vec![DigestItem::PreRuntime(b"aura".to_vec(), account)];
    assert_eq!(get_block_miner(&digest), None);
}
