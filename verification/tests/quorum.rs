use quorum_will::aead::open;
use quorum_will::distribute::distribute;
use quorum_will::distribute::distribute_with;
use quorum_will::errors::crypto_error::CryptoError;
use quorum_will::models::fragment::Fragment;
use quorum_will::models::key::Key;
use quorum_will::models::shard::Shard;
use quorum_will::parts::remove_part;
use quorum_will::reconstruct::covered;
use quorum_will::reconstruct::find_covered;
use quorum_will::reconstruct::find_for;
use quorum_will::reconstruct::holds;
use quorum_will::reconstruct::reconstruct;
use quorum_will::reconstruct::recover_from;
use quorum_will::reconstruct::same_bytes;
use quorum_will::reconstruct::select_quorum;
use quorum_will::reconstruct::shard_owners;

fn trustee_key(t: u8) -> Key {
    Key::new((0..32).map(|i| i * 3 + t).collect(), (0..12).map(|i| i * 5 + t * 2 + 1).collect())
}

fn trustee_keys(n: u8) -> Vec<Key> {
    (0..n).map(trustee_key).collect()
}

fn copy_shard(s: &Shard) -> Shard {
    let mut copy = Shard::new(s.owner, s.key.clone(), s.pri_nonce.clone());
    for f in &s.fragments {
        copy.fragments.push(Fragment::new(f.ciphertext.clone(), f.key.clone(), f.owners.clone()));
    }
    copy
}

fn pick(shards: &Vec<Shard>, owners: &[usize]) -> Vec<Shard> {
    owners.iter().map(|o| copy_shard(&shards[*o])).collect()
}

fn sample(len: usize) -> Vec<u8> {
    (0..len).map(|i| (i * 11 + 5) as u8).collect()
}

fn subsets(n: usize) -> Vec<Vec<usize>> {
    (0..(1usize << n)).map(|mask| (0..n).filter(|i| mask & (1 << i) != 0).collect()).collect()
}

#[test]
fn fragment_new_keeps_its_fields() {
    let f = Fragment::new(vec![1], vec![2, 3], vec![4, 5, 6]);
    assert_eq!(f.ciphertext, vec![1]);
    assert_eq!(f.key, vec![2, 3]);
    assert_eq!(f.owners, vec![4, 5, 6]);
}

#[test]
fn shard_new_has_no_fragments() {
    let s = Shard::new(3, Key::new(vec![1], vec![2]), vec![9; 12]);
    assert_eq!(s.owner, 3);
    assert_eq!(s.key.key, vec![1]);
    assert_eq!(s.key.nonce, vec![2]);
    assert_eq!(s.pri_nonce, vec![9; 12]);
    assert!(s.fragments.is_empty());
}

#[test]
fn distribute_gives_each_trustee_its_key_and_the_nonce() {
    let shards = distribute_with(&sample(20), &sample(48), &vec![8; 12], &trustee_keys(4), 3).unwrap();
    assert_eq!(shards.len(), 4);
    for (t, shard) in shards.iter().enumerate() {
        assert_eq!(shard.owner as usize, t);
        assert_eq!(shard.key.key, trustee_key(t as u8).key);
        assert_eq!(shard.key.nonce, trustee_key(t as u8).nonce);
        assert_eq!(shard.pri_nonce, vec![8; 12]);
    }
}

#[test]
fn distribute_lists_the_combinations_in_order() {
    let shards = distribute_with(&sample(20), &sample(48), &vec![8; 12], &trustee_keys(4), 3).unwrap();
    let owners: Vec<Vec<u8>> = shards[1].fragments.iter().map(|f| f.owners.clone()).collect();
    assert_eq!(owners, vec![vec![0, 2], vec![0, 3], vec![2, 3]]);
    let owners: Vec<Vec<u8>> = shards[0].fragments.iter().map(|f| f.owners.clone()).collect();
    assert_eq!(owners, vec![vec![1, 2], vec![1, 3], vec![2, 3]]);
    let owners: Vec<Vec<u8>> = shards[3].fragments.iter().map(|f| f.owners.clone()).collect();
    assert_eq!(owners, vec![vec![0, 1], vec![0, 2], vec![1, 2]]);
}

#[test]
fn distribute_leaves_out_the_part_at_the_place_of_the_owner() {
    let ciphertext = sample(20);
    let wrapped = sample(48);
    let keys = trustee_keys(4);
    let shards = distribute_with(&ciphertext, &wrapped, &vec![8; 12], &keys, 3).unwrap();
    // Trustee 2 among the owners 0 and 3 stands at place 1.
    let fragment = &shards[2].fragments[1];
    assert_eq!(fragment.owners, vec![0, 3]);
    assert_eq!(fragment.ciphertext, remove_part(&ciphertext, 3, 1).unwrap());
    let combo = Key::xor_keys(&[trustee_key(0), trustee_key(3)]);
    assert_eq!(open(&combo, &fragment.key), Some(remove_part(&wrapped, 3, 1).unwrap()));
    // Trustee 3 among the owners 0 and 1 stands at place 2.
    let fragment = &shards[3].fragments[0];
    assert_eq!(fragment.ciphertext, remove_part(&ciphertext, 3, 2).unwrap());
    let combo = Key::xor_keys(&[trustee_key(0), trustee_key(1)]);
    assert_eq!(open(&combo, &fragment.key), Some(remove_part(&wrapped, 3, 2).unwrap()));
    assert_eq!(open(&trustee_key(0), &fragment.key), None);
}

#[test]
fn distribute_is_the_same_for_the_same_keys() {
    let a = distribute_with(&sample(9), &sample(32), &vec![8; 12], &trustee_keys(3), 2).unwrap();
    let b = distribute_with(&sample(9), &sample(32), &vec![8; 12], &trustee_keys(3), 2).unwrap();
    for t in 0..3 {
        for j in 0..2 {
            assert_eq!(a[t].fragments[j].key, b[t].fragments[j].key);
            assert_eq!(a[t].fragments[j].ciphertext, b[t].fragments[j].ciphertext);
        }
    }
}

#[test]
fn fragment_counts_and_shapes() {
    let expected = [(1u8, 1u8, 1usize), (4, 1, 1), (2, 2, 1), (3, 2, 2), (4, 2, 3), (4, 3, 3), (4, 4, 1), (5, 3, 6), (6, 3, 10), (7, 4, 20)];
    for (trustees, quorum, count) in expected {
        let shards = distribute_with(&sample(33), &sample(48), &vec![8; 12], &trustee_keys(trustees), quorum).unwrap();
        assert_eq!(shards.len(), trustees as usize);
        for shard in &shards {
            assert_eq!(shard.fragments.len(), count);
            for fragment in &shard.fragments {
                assert_eq!(fragment.owners.len(), quorum as usize - 1);
                assert!(fragment.owners.windows(2).all(|w| w[0] < w[1]));
                assert!(!fragment.owners.contains(&shard.owner));
                assert!(fragment.owners.iter().all(|o| *o < trustees));
            }
        }
    }
}

#[test]
fn distribute_refuses_a_bad_quorum() {
    let keys = trustee_keys(3);
    assert_eq!(
        distribute_with(&sample(9), &sample(32), &vec![8; 12], &keys, 0).err(),
        Some(CryptoError::ConfigurationError)
    );
    assert_eq!(
        distribute_with(&sample(9), &sample(32), &vec![8; 12], &keys, 4).err(),
        Some(CryptoError::ConfigurationError)
    );
    assert_eq!(
        distribute_with(&sample(9), &sample(32), &vec![8; 12], &Vec::new(), 1).err(),
        Some(CryptoError::ConfigurationError)
    );
}

#[test]
fn distribute_refuses_more_than_255_trustees() {
    let keys: Vec<Key> = (0..256).map(|i| trustee_key((i % 200) as u8)).collect();
    assert_eq!(
        distribute_with(&sample(9), &sample(32), &vec![8; 12], &keys, 2).err(),
        Some(CryptoError::ConfigurationError)
    );
}

#[test]
fn distribute_refuses_too_many_fragments() {
    let keys: Vec<Key> = (0..255).map(|i| trustee_key((i % 200) as u8)).collect();
    assert_eq!(
        distribute_with(&sample(9), &sample(32), &vec![8; 12], &keys, 128).err(),
        Some(CryptoError::ConfigurationError)
    );
}

#[test]
fn distribute_to_255_trustees() {
    let keys: Vec<Key> = (0..255).map(|i| trustee_key(i as u8)).collect();
    let shards = distribute_with(&sample(9), &sample(32), &vec![8; 12], &keys, 2).unwrap();
    assert_eq!(shards.len(), 255);
    assert_eq!(shards[254].owner, 254);
    assert_eq!(shards[254].fragments.len(), 254);
    let found = reconstruct(&pick(&shards, &[254, 17])).unwrap();
    assert_eq!(found.ciphertext, sample(9));
    assert_eq!(found.wrapped_key, sample(32));
}

#[test]
fn distribute_for_a_quorum_of_one() {
    for trustees in [1u8, 3] {
        let shards = distribute_with(&sample(9), &sample(32), &vec![8; 12], &trustee_keys(trustees), 1).unwrap();
        assert_eq!(shards.len(), trustees as usize);
        for shard in &shards {
            assert_eq!(shard.fragments.len(), 1);
            let fragment = &shard.fragments[0];
            assert!(fragment.owners.is_empty());
            assert!(fragment.ciphertext.is_empty());
            let zero = Key::new(vec![0; 32], vec![0; 12]);
            assert_eq!(open(&zero, &fragment.key), Some(Vec::new()));
        }
        assert_eq!(reconstruct(&shards).err(), Some(CryptoError::QuorumUnavailable));
    }
    let shards = distribute(&sample(9), &sample(32), &vec![8; 12], 4, 1).unwrap();
    assert_eq!(shards.len(), 4);
    assert!(shards.iter().all(|s| s.fragments.len() == 1));
}

#[test]
fn distribute_refuses_a_key_that_does_not_fit() {
    let mut keys = trustee_keys(3);
    keys[2] = Key::new(vec![1; 32], vec![2; 13]);
    assert_eq!(
        distribute_with(&sample(9), &sample(32), &vec![8; 12], &keys, 2).err(),
        Some(CryptoError::InvalidLength)
    );
}

#[test]
fn distribute_makes_fresh_keys() {
    let shards = distribute(&sample(9), &sample(32), &vec![8; 12], 3, 2).unwrap();
    assert_eq!(shards.len(), 3);
    assert_ne!(shards[0].key.key, shards[1].key.key);
    assert!(shards.iter().all(|s| s.key.key.len() == 32 && s.key.nonce.len() == 12));
    let found = reconstruct(&shards).unwrap();
    assert_eq!(found.ciphertext, sample(9));
    assert_eq!(found.wrapped_key, sample(32));
    assert_eq!(found.pri_nonce, vec![8; 12]);
}

#[test]
fn every_quorum_or_more_recovers_and_fewer_do_not() {
    for (trustees, quorum) in [(2usize, 2usize), (3, 2), (3, 3), (4, 2), (4, 3), (5, 3), (5, 5)] {
        for len in [0usize, 1, 5, 16, 17, 31] {
            let ciphertext = sample(len);
            let wrapped = sample(32 + 16);
            let shards =
                distribute_with(&ciphertext, &wrapped, &vec![8; 12], &trustee_keys(trustees as u8), quorum as u8)
                    .unwrap();
            for owners in subsets(trustees) {
                let result = reconstruct(&pick(&shards, &owners));
                if owners.len() >= quorum {
                    let found = result.unwrap();
                    assert_eq!(found.ciphertext, ciphertext);
                    assert_eq!(found.wrapped_key, wrapped);
                    assert_eq!(found.pri_nonce, vec![8; 12]);
                } else {
                    assert_eq!(result.err(), Some(CryptoError::QuorumUnavailable));
                }
            }
        }
    }
}

#[test]
fn shards_recover_in_any_order() {
    let shards = distribute_with(&sample(23), &sample(64), &vec![8; 12], &trustee_keys(5), 3).unwrap();
    for order in [[4usize, 2, 0], [2, 4, 0], [0, 4, 2], [2, 0, 4]] {
        let found = reconstruct(&pick(&shards, &order)).unwrap();
        assert_eq!(found.ciphertext, sample(23));
        assert_eq!(found.wrapped_key, sample(64));
    }
    let found = reconstruct(&pick(&shards, &[3, 1, 4, 0, 2])).unwrap();
    assert_eq!(found.ciphertext, sample(23));
}

#[test]
fn no_shards_recover_nothing() {
    assert_eq!(reconstruct(&Vec::new()).err(), Some(CryptoError::QuorumUnavailable));
}

#[test]
fn the_same_shard_twice_is_no_quorum() {
    let shards = distribute_with(&sample(23), &sample(64), &vec![8; 12], &trustee_keys(3), 2).unwrap();
    assert_eq!(reconstruct(&pick(&shards, &[1, 1])).err(), Some(CryptoError::QuorumUnavailable));
}

#[test]
fn a_changed_fragment_key_does_not_open() {
    let shards = distribute_with(&sample(23), &sample(64), &vec![8; 12], &trustee_keys(3), 2).unwrap();
    let mut given = pick(&shards, &[0, 1]);
    given[0].fragments[0].key[5] ^= 0x10;
    assert_eq!(reconstruct(&given).err(), Some(CryptoError::QuorumDecryptFailure));
    let mut given = pick(&shards, &[0, 1]);
    given[1].fragments[0].key[0] ^= 0x01;
    assert_eq!(reconstruct(&given).err(), Some(CryptoError::QuorumDecryptFailure));
}

#[test]
fn a_changed_trustee_key_does_not_open() {
    let shards = distribute_with(&sample(23), &sample(64), &vec![8; 12], &trustee_keys(3), 2).unwrap();
    let mut given = pick(&shards, &[0, 2]);
    given[1].key.key[0] ^= 0x01;
    assert_eq!(reconstruct(&given).err(), Some(CryptoError::QuorumDecryptFailure));
    let mut given = pick(&shards, &[0, 2]);
    given[0].key.nonce.push(0);
    given[0].key.nonce[12] = 1;
    assert_eq!(reconstruct(&given).err(), Some(CryptoError::QuorumDecryptFailure));
}

#[test]
fn a_member_without_its_fragment_is_no_quorum() {
    let shards = distribute_with(&sample(23), &sample(64), &vec![8; 12], &trustee_keys(3), 2).unwrap();
    let mut given = pick(&shards, &[0, 1]);
    given[1].fragments.clear();
    assert_eq!(reconstruct(&given).err(), Some(CryptoError::QuorumUnavailable));
}

#[test]
fn the_lowest_owner_names_the_quorum() {
    let shards = distribute_with(&sample(23), &sample(64), &vec![8; 12], &trustee_keys(5), 3).unwrap();
    let given = pick(&shards, &[4, 3, 1, 2]);
    let members = select_quorum(&given).unwrap();
    let owners: Vec<u8> = members.iter().map(|s| s.owner).collect();
    assert_eq!(owners, vec![1, 2, 3]);
    let found = recover_from(&members).unwrap();
    assert_eq!(found.ciphertext, sample(23));
    assert_eq!(found.wrapped_key, sample(64));
}

#[test]
fn select_quorum_finds_none_among_too_few() {
    let shards = distribute_with(&sample(23), &sample(64), &vec![8; 12], &trustee_keys(5), 3).unwrap();
    assert!(select_quorum(&pick(&shards, &[4, 1])).is_none());
    assert!(select_quorum(&Vec::new()).is_none());
}

#[test]
fn recover_from_needs_two_members() {
    let shards = distribute_with(&sample(23), &sample(64), &vec![8; 12], &trustee_keys(3), 2).unwrap();
    assert_eq!(recover_from(&vec![&shards[0]]).err(), Some(CryptoError::QuorumUnavailable));
    assert_eq!(recover_from(&Vec::new()).err(), Some(CryptoError::QuorumUnavailable));
    assert!(recover_from(&vec![&shards[0], &shards[2]]).is_ok());
}

#[test]
fn recover_from_members_that_do_not_belong_together() {
    let shards = distribute_with(&sample(23), &sample(64), &vec![8; 12], &trustee_keys(4), 3).unwrap();
    assert_eq!(recover_from(&vec![&shards[0], &shards[1]]).err(), Some(CryptoError::QuorumUnavailable));
    assert_eq!(recover_from(&vec![&shards[0], &shards[0], &shards[1]]).err(), Some(CryptoError::QuorumUnavailable));
}

#[test]
fn recover_from_members_out_of_order_joins_the_wrong_parts() {
    let shards = distribute_with(&sample(23), &sample(64), &vec![8; 12], &trustee_keys(4), 3).unwrap();
    let found = recover_from(&vec![&shards[1], &shards[0], &shards[2]]).unwrap();
    assert_ne!(found.ciphertext, sample(23));
    let found = recover_from(&vec![&shards[0], &shards[1], &shards[2]]).unwrap();
    assert_eq!(found.ciphertext, sample(23));
}

#[test]
fn search_helpers() {
    assert!(holds(&vec![1, 2, 3], 2));
    assert!(!holds(&vec![1, 2, 3], 4));
    assert!(!holds(&Vec::new(), 0));
    assert!(covered(&vec![1, 3], &vec![3, 2, 1]));
    assert!(!covered(&vec![1, 4], &vec![3, 2, 1]));
    assert!(covered(&Vec::new(), &Vec::new()));
    assert!(same_bytes(&vec![1, 2], &vec![1, 2]));
    assert!(!same_bytes(&vec![1, 2], &vec![1, 3]));
    assert!(!same_bytes(&vec![1, 2], &vec![1, 2, 3]));
    let fragments = vec![
        Fragment::new(vec![], vec![], vec![1, 2]),
        Fragment::new(vec![], vec![], vec![1, 3]),
        Fragment::new(vec![], vec![], vec![2, 3]),
        Fragment::new(vec![], vec![], vec![1, 3]),
    ];
    assert_eq!(find_covered(&fragments, &vec![0, 3, 1]), Some(1));
    assert_eq!(find_covered(&fragments, &vec![0, 3]), None);
    assert_eq!(find_covered(&fragments, &vec![3, 2, 1]), Some(0));
    assert_eq!(find_for(&fragments, &vec![1, 3]), Some(1));
    assert_eq!(find_for(&fragments, &vec![2, 3]), Some(2));
    assert_eq!(find_for(&fragments, &vec![3, 2]), None);
    let shards = vec![Shard::new(4, Key::new(vec![], vec![]), vec![]), Shard::new(1, Key::new(vec![], vec![]), vec![])];
    assert_eq!(shard_owners(&shards), vec![4, 1]);
}

#[test]
fn distribute_refuses_before_it_makes_keys() {
    assert_eq!(distribute(&sample(9), &sample(32), &vec![8; 12], 3, 0).err(), Some(CryptoError::ConfigurationError));
    assert_eq!(distribute(&sample(9), &sample(32), &vec![8; 12], 3, 4).err(), Some(CryptoError::ConfigurationError));
    assert_eq!(distribute(&sample(9), &sample(32), &vec![8; 12], 0, 0).err(), Some(CryptoError::ConfigurationError));
    assert_eq!(
        distribute(&sample(9), &sample(32), &vec![8; 12], 255, 128).err(),
        Some(CryptoError::ConfigurationError)
    );
}
