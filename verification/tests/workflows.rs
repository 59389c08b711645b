use quorum_will::errors::crypto_error::CryptoError;
use quorum_will::models::canary::Canary;
use quorum_will::models::deliverable::Deliverable;
use quorum_will::models::fragment::Fragment;
use quorum_will::models::key::Key;
use quorum_will::models::meta::Meta;
use quorum_will::models::payload::keep_compatible;
use quorum_will::models::payload::Payload;
use quorum_will::models::shard::Shard;
use quorum_will::orchestrator::decrypt;
use quorum_will::orchestrator::encrypt;
use quorum_will::orchestrator::encrypt_with;
use quorum_will::orchestrator::sort_deliverables;

fn copy_shard(s: &Shard) -> Shard {
    let mut copy = Shard::new(s.owner, s.key.clone(), s.pri_nonce.clone());
    for f in &s.fragments {
        copy.fragments.push(Fragment::new(f.ciphertext.clone(), f.key.clone(), f.owners.clone()));
    }
    copy
}

fn copy_canary(c: &Canary) -> Canary {
    Canary::new(c.key.clone(), c.layer)
}

fn pick(shards: &Vec<Shard>, owners: &[usize]) -> Vec<Shard> {
    owners.iter().map(|o| copy_shard(&shards[*o])).collect()
}

fn subsets(n: usize) -> Vec<Vec<usize>> {
    (0..(1usize << n)).map(|mask| (0..n).filter(|i| mask & (1 << i) != 0).collect()).collect()
}

fn fixed_key(seed: u8) -> Key {
    Key::new((0..32).map(|i| i ^ seed).collect(), (0..12).map(|i| (i * 3) ^ seed).collect())
}

fn owners_of(shard: &Shard) -> Vec<Vec<u8>> {
    shard.fragments.iter().map(|f| f.owners.clone()).collect()
}

#[test]
fn three_trustees_quorum_of_two_recover_hello() {
    let plaintext = b"hello".to_vec();
    let (canaries, shards) = encrypt(&plaintext, 0, 2, 3).unwrap();
    assert!(canaries.is_empty());
    assert_eq!(shards.len(), 3);
    assert_eq!(owners_of(&shards[0]), vec![vec![1], vec![2]]);
    assert_eq!(owners_of(&shards[1]), vec![vec![0], vec![2]]);
    assert_eq!(owners_of(&shards[2]), vec![vec![0], vec![1]]);
    for two in [[0usize, 1], [0, 2], [1, 2], [1, 0], [2, 0], [2, 1]] {
        assert_eq!(decrypt(&canaries, &pick(&shards, &two)), Ok(plaintext.clone()));
    }
    assert_eq!(decrypt(&canaries, &shards), Ok(plaintext));
}

#[test]
fn five_trustees_quorum_of_three_one_canary_recover_all_bytes() {
    let plaintext: Vec<u8> = (0..=255).collect();
    let (canaries, shards) = encrypt(&plaintext, 1, 3, 5).unwrap();
    assert_eq!(canaries.len(), 1);
    assert_eq!(shards.len(), 5);
    for shard in &shards {
        assert_eq!(shard.fragments.len(), 6);
    }
    assert_eq!(decrypt(&canaries, &pick(&shards, &[0, 2, 4])), Ok(plaintext));
}

#[test]
fn four_trustees_all_hands() {
    let plaintext = b"all-hands".to_vec();
    let (canaries, shards) = encrypt(&plaintext, 0, 4, 4).unwrap();
    assert_eq!(owners_of(&shards[0]), vec![vec![1, 2, 3]]);
    assert_eq!(owners_of(&shards[1]), vec![vec![0, 2, 3]]);
    assert_eq!(owners_of(&shards[2]), vec![vec![0, 1, 3]]);
    assert_eq!(owners_of(&shards[3]), vec![vec![0, 1, 2]]);
    assert_eq!(decrypt(&canaries, &shards), Ok(plaintext));
    for missing in 0..4usize {
        let rest: Vec<usize> = (0..4).filter(|t| *t != missing).collect();
        assert_eq!(decrypt(&canaries, &pick(&shards, &rest)), Err(CryptoError::QuorumUnavailable));
    }
}

#[test]
fn two_canaries_one_missing_is_a_mismatch() {
    let plaintext = b"top-secret".to_vec();
    let (canaries, shards) = encrypt(&plaintext, 2, 2, 3).unwrap();
    let both = pick(&shards, &[0, 1]);
    assert_eq!(decrypt(&vec![copy_canary(&canaries[0])], &both), Err(CryptoError::CanaryMismatch));
    assert_eq!(decrypt(&vec![copy_canary(&canaries[1])], &both), Err(CryptoError::CanaryMismatch));
    assert_eq!(decrypt(&Vec::new(), &both), Err(CryptoError::CanaryMismatch));
    assert_eq!(decrypt(&canaries, &both), Ok(plaintext));
}

#[test]
fn seventeen_bytes_recover_from_two_of_four() {
    let plaintext: Vec<u8> = quorum_will::aead::random_bytes(17).unwrap();
    let (canaries, shards) = encrypt(&plaintext, 0, 2, 4).unwrap();
    assert_eq!(decrypt(&canaries, &pick(&shards, &[1, 3])), Ok(plaintext.clone()));
    assert_eq!(decrypt(&canaries, &pick(&shards, &[0, 2])), Ok(plaintext));
}

type WrittenShard = (Vec<(Vec<u8>, Vec<u8>, Vec<u8>)>, (Vec<u8>, Vec<u8>), u8, Vec<u8>);

fn write_shard(s: &Shard) -> Vec<u8> {
    let fragments: Vec<(Vec<u8>, Vec<u8>, Vec<u8>)> =
        s.fragments.iter().map(|f| (f.ciphertext.clone(), f.key.clone(), f.owners.clone())).collect();
    let written: WrittenShard = (fragments, (s.key.key.clone(), s.key.nonce.clone()), s.owner, s.pri_nonce.clone());
    bincode::serialize(&written).unwrap()
}

fn read_shard(bytes: &[u8]) -> Shard {
    let (fragments, (key, nonce), owner, pri_nonce): WrittenShard = bincode::deserialize(bytes).unwrap();
    let mut shard = Shard::new(owner, Key::new(key, nonce), pri_nonce);
    for (ciphertext, key, owners) in fragments {
        shard.fragments.push(Fragment::new(ciphertext, key, owners));
    }
    shard
}

#[test]
fn another_version_skips_the_files_and_finds_no_quorum() {
    let (canaries, shards) = encrypt(&b"versioned".to_vec(), 0, 2, 3).unwrap();
    assert!(canaries.is_empty());
    let made_by = "1.0.0".to_string();
    let payloads: Vec<Payload> =
        shards.iter().map(|s| Payload::new(Meta::new(made_by.clone(), String::new()), write_shard(s))).collect();
    let kept = keep_compatible(payloads, &"2.0.0".to_string());
    assert!(kept.is_empty());
    let read: Vec<Shard> = kept.iter().map(|p| read_shard(&p.deliverable)).collect();
    assert_eq!(decrypt(&canaries, &read), Err(CryptoError::QuorumUnavailable));
}

#[test]
fn the_same_version_keeps_the_files() {
    let plaintext = b"versioned".to_vec();
    let (canaries, shards) = encrypt(&plaintext, 0, 2, 3).unwrap();
    let made_by = "1.0.0".to_string();
    let payloads: Vec<Payload> = shards
        .iter()
        .map(|s| Payload::new(Meta::new(made_by.clone(), "keep safe".to_string()), write_shard(s)))
        .collect();
    let kept = keep_compatible(payloads, &made_by);
    assert_eq!(kept.len(), 3);
    let read: Vec<Shard> = kept.iter().map(|p| read_shard(&p.deliverable)).collect();
    assert_eq!(decrypt(&canaries, &read), Ok(plaintext));
}

#[test]
fn files_of_two_versions_leave_those_of_one() {
    let plaintext = b"versioned".to_vec();
    let (canaries, shards) = encrypt(&plaintext, 0, 2, 3).unwrap();
    let versions = ["1.0.0", "2.0.0", "1.0.0"];
    let payloads: Vec<Payload> = shards
        .iter()
        .zip(versions)
        .map(|(s, v)| Payload::new(Meta::new(v.to_string(), String::new()), write_shard(s)))
        .collect();
    let kept = keep_compatible(payloads.clone(), &"1.0.0".to_string());
    let read: Vec<Shard> = kept.iter().map(|p| read_shard(&p.deliverable)).collect();
    let owners: Vec<u8> = read.iter().map(|s| s.owner).collect();
    assert_eq!(owners, vec![0, 2]);
    assert_eq!(decrypt(&canaries, &read), Ok(plaintext));
    let kept = keep_compatible(payloads, &"2.0.0".to_string());
    let read: Vec<Shard> = kept.iter().map(|p| read_shard(&p.deliverable)).collect();
    assert_eq!(decrypt(&canaries, &read), Err(CryptoError::QuorumUnavailable));
}

#[test]
fn round_trip_over_counts() {
    for (trustees, quorum, canaries_count) in
        [(2u8, 2u8, 0u8), (2, 2, 1), (3, 2, 8), (3, 3, 2), (4, 2, 3), (5, 4, 1), (6, 3, 2), (8, 5, 0)]
    {
        for len in [0usize, 1, 31, 32, 33, 200] {
            let plaintext: Vec<u8> = (0..len).map(|i| (i * 13 + 1) as u8).collect();
            let (canaries, shards) = encrypt(&plaintext, canaries_count, quorum, trustees).unwrap();
            assert_eq!(canaries.len(), canaries_count as usize);
            assert_eq!(shards.len(), trustees as usize);
            assert_eq!(decrypt(&canaries, &shards), Ok(plaintext));
        }
    }
}

#[test]
fn round_trip_with_many_trustees() {
    let plaintext = b"many hands".to_vec();
    let (canaries, shards) = encrypt(&plaintext, 2, 3, 32).unwrap();
    assert_eq!(shards.len(), 32);
    assert_eq!(shards[0].fragments.len(), 465);
    assert_eq!(decrypt(&canaries, &pick(&shards, &[31, 7, 19])), Ok(plaintext.clone()));
    assert_eq!(decrypt(&canaries, &shards), Ok(plaintext));
}

#[test]
fn every_subset_recovers_or_finds_no_quorum() {
    let plaintext = b"which of you".to_vec();
    let (canaries, shards) = encrypt(&plaintext, 1, 3, 5).unwrap();
    for owners in subsets(5) {
        let result = decrypt(&canaries, &pick(&shards, &owners));
        if owners.len() >= 3 {
            assert_eq!(result, Ok(plaintext.clone()));
        } else {
            assert_eq!(result, Err(CryptoError::QuorumUnavailable));
            assert_eq!(decrypt(&Vec::new(), &pick(&shards, &owners)), Err(CryptoError::QuorumUnavailable));
        }
    }
}

#[test]
fn canaries_in_any_order() {
    let plaintext = b"order of canaries".to_vec();
    let (canaries, shards) = encrypt(&plaintext, 3, 2, 2).unwrap();
    for order in [[0usize, 1, 2], [2, 1, 0], [1, 2, 0], [2, 0, 1]] {
        let given: Vec<Canary> = order.iter().map(|i| copy_canary(&canaries[*i])).collect();
        assert_eq!(decrypt(&given, &shards), Ok(plaintext.clone()));
    }
}

#[test]
fn every_missing_canary_is_a_mismatch() {
    let (canaries, shards) = encrypt(&b"veto".to_vec(), 3, 2, 3).unwrap();
    for kept in subsets(3) {
        if kept.len() < 3 {
            let given: Vec<Canary> = kept.iter().map(|i| copy_canary(&canaries[*i])).collect();
            assert_eq!(decrypt(&given, &shards), Err(CryptoError::CanaryMismatch));
        }
    }
}

#[test]
fn a_changed_primary_nonce_fails_at_the_end() {
    let (canaries, shards) = encrypt(&b"nonce".to_vec(), 1, 2, 3).unwrap();
    let mut given = pick(&shards, &[0, 1]);
    given[0].pri_nonce[0] ^= 1;
    assert_eq!(decrypt(&canaries, &given), Err(CryptoError::PrimaryDecryptFailure));
    let mut given = pick(&shards, &[0, 1]);
    given[0].pri_nonce.pop();
    assert_eq!(decrypt(&canaries, &given), Err(CryptoError::PrimaryDecryptFailure));
}

#[test]
fn a_changed_ciphertext_fails_at_the_end() {
    let (canaries, shards) = encrypt(&b"some longer plaintext".to_vec(), 1, 2, 3).unwrap();
    let mut given = pick(&shards, &[0, 1]);
    given[0].fragments[0].ciphertext[0] ^= 1;
    assert_eq!(decrypt(&canaries, &given), Err(CryptoError::PrimaryDecryptFailure));
}

#[test]
fn encrypt_refuses_bad_counts() {
    let plaintext = b"x".to_vec();
    assert_eq!(encrypt(&plaintext, 0, 0, 3).err(), Some(CryptoError::ConfigurationError));
    assert_eq!(encrypt(&plaintext, 0, 4, 3).err(), Some(CryptoError::ConfigurationError));
    assert_eq!(encrypt(&plaintext, 0, 0, 0).err(), Some(CryptoError::ConfigurationError));
    assert_eq!(encrypt(&plaintext, 0, 1, 0).err(), Some(CryptoError::ConfigurationError));
    assert_eq!(encrypt(&plaintext, 0, 128, 255).err(), Some(CryptoError::ConfigurationError));
}

#[test]
fn a_quorum_of_one_gives_one_fragment_to_each_trustee() {
    for (canary_count, trustees) in [(0u8, 1u8), (2, 3), (1, 5)] {
        let (canaries, shards) = encrypt(&b"one is enough".to_vec(), canary_count, 1, trustees).unwrap();
        assert_eq!(canaries.len(), canary_count as usize);
        assert_eq!(shards.len(), trustees as usize);
        for (t, shard) in shards.iter().enumerate() {
            assert_eq!(shard.owner as usize, t);
            assert_eq!(shard.fragments.len(), 1);
            assert!(shard.fragments[0].owners.is_empty());
            assert!(shard.fragments[0].ciphertext.is_empty());
        }
    }
}

#[test]
fn a_quorum_of_one_recovers_nothing() {
    let (canaries, shards) = encrypt(&b"one is enough".to_vec(), 1, 1, 3).unwrap();
    assert_eq!(decrypt(&canaries, &shards), Err(CryptoError::QuorumUnavailable));
    for owners in subsets(3) {
        assert_eq!(decrypt(&canaries, &pick(&shards, &owners)), Err(CryptoError::QuorumUnavailable));
    }
}

#[test]
fn encrypt_with_given_keys_is_the_same_each_time() {
    let plaintext = b"fixed keys".to_vec();
    let trustee_keys: Vec<Key> = (10..13).map(fixed_key).collect();
    let run = || encrypt_with(&plaintext, &fixed_key(1), vec![fixed_key(2), fixed_key(3)], &trustee_keys, 2).unwrap();
    let (canaries_a, shards_a) = run();
    let (canaries_b, shards_b) = run();
    assert_eq!(canaries_a.len(), 2);
    assert_eq!(canaries_a[1].key.key, fixed_key(3).key);
    assert_eq!(canaries_b[0].layer, 0);
    for t in 0..3 {
        assert_eq!(shards_a[t].pri_nonce, fixed_key(1).nonce);
        assert_eq!(shards_a[t].key.key, fixed_key(10 + t as u8).key);
        for j in 0..2 {
            assert_eq!(shards_a[t].fragments[j].key, shards_b[t].fragments[j].key);
            assert_eq!(shards_a[t].fragments[j].ciphertext, shards_b[t].fragments[j].ciphertext);
        }
    }
    assert_eq!(decrypt(&canaries_a, &shards_b), Ok(plaintext));
}

#[test]
fn encrypt_with_refuses_keys_that_do_not_fit() {
    let plaintext = b"x".to_vec();
    let trustee_keys: Vec<Key> = (10..13).map(fixed_key).collect();
    let short = Key::new(vec![1; 16], vec![2; 12]);
    assert_eq!(
        encrypt_with(&plaintext, &short, Vec::new(), &trustee_keys, 2).err(),
        Some(CryptoError::InvalidLength)
    );
    assert_eq!(
        encrypt_with(&plaintext, &fixed_key(1), vec![Key::new(vec![1; 32], Vec::new())], &trustee_keys, 2).err(),
        Some(CryptoError::InvalidLength)
    );
    let mut bad = vec![fixed_key(10), fixed_key(11)];
    bad.push(Key::new(Vec::new(), vec![2; 12]));
    assert_eq!(encrypt_with(&plaintext, &fixed_key(1), Vec::new(), &bad, 2).err(), Some(CryptoError::InvalidLength));
    assert_eq!(
        encrypt_with(&plaintext, &short, Vec::new(), &trustee_keys, 5).err(),
        Some(CryptoError::ConfigurationError)
    );
}

#[test]
fn deliverables_are_parted_in_order() {
    let (canaries, shards) = encrypt(&b"parted".to_vec(), 2, 2, 3).unwrap();
    let mut canaries = canaries;
    let mut shards = shards;
    let s2 = shards.pop().unwrap();
    let s1 = shards.pop().unwrap();
    let s0 = shards.pop().unwrap();
    let c1 = canaries.pop().unwrap();
    let c0 = canaries.pop().unwrap();
    let mixed = vec![
        Deliverable::Shard(s1),
        Deliverable::Canary(c1),
        Deliverable::Shard(s2),
        Deliverable::Shard(s0),
        Deliverable::Canary(c0),
    ];
    let (found_canaries, found_shards) = sort_deliverables(mixed);
    let layers: Vec<u8> = found_canaries.iter().map(|c| c.layer).collect();
    let owners: Vec<u8> = found_shards.iter().map(|s| s.owner).collect();
    assert_eq!(layers, vec![1, 0]);
    assert_eq!(owners, vec![1, 2, 0]);
    assert_eq!(decrypt(&found_canaries, &found_shards), Ok(b"parted".to_vec()));
    let (none_c, none_s) = sort_deliverables(Vec::new());
    assert!(none_c.is_empty() && none_s.is_empty());
}
