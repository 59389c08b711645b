use quorum_will::models::key::Key;

#[test]
fn key_new_keeps_its_fields() {
    let key = Key::new(vec![1, 2, 3], vec![4, 5]);
    assert_eq!(key.key, vec![1, 2, 3]);
    assert_eq!(key.nonce, vec![4, 5]);
}

#[test]
fn key_clone_is_equal() {
    let key = Key::new(vec![9; 32], vec![7; 12]);
    let copy = key.clone();
    assert_eq!(copy.key, key.key);
    assert_eq!(copy.nonce, key.nonce);
}

#[test]
fn xor_vecs_of_equal_length() {
    assert_eq!(Key::xor_vecs(&[0x0f, 0xf0, 0xff], &[0xff, 0xff, 0x0f]), vec![0xf0, 0x0f, 0xf0]);
}

#[test]
fn xor_vecs_pads_the_shorter_with_zeros() {
    assert_eq!(Key::xor_vecs(&[1, 2, 3], &[4, 5]), vec![5, 7, 3]);
    assert_eq!(Key::xor_vecs(&[4, 5], &[1, 2, 3]), vec![5, 7, 3]);
    assert_eq!(Key::xor_vecs(&[], &[1, 2, 3]), vec![1, 2, 3]);
    assert_eq!(Key::xor_vecs(&[], &[]), Vec::<u8>::new());
}

#[test]
fn xor_keys_of_none_is_the_all_zero_key() {
    let combined = Key::xor_keys(&[]);
    assert_eq!(combined.key, vec![0u8; 32]);
    assert_eq!(combined.nonce, vec![0u8; 12]);
}

#[test]
fn xor_keys_of_short_keys_is_not_padded_to_the_cipher() {
    let combined = Key::xor_keys(&[Key::new(vec![1, 2, 3], vec![4]), Key::new(vec![7], Vec::new())]);
    assert_eq!(combined.key, vec![6, 2, 3]);
    assert_eq!(combined.nonce, vec![4]);
    let combined = Key::xor_keys(&[Key::new(Vec::new(), Vec::new())]);
    assert!(combined.key.is_empty() && combined.nonce.is_empty());
}

#[test]
fn xor_keys_of_one_is_that_key() {
    let combined = Key::xor_keys(&[Key::new(vec![1, 2, 3], vec![4])]);
    assert_eq!(combined.key, vec![1, 2, 3]);
    assert_eq!(combined.nonce, vec![4]);
}

#[test]
fn xor_keys_of_three() {
    let keys = [
        Key::new(vec![0b0001, 0b0010], vec![1, 1, 1]),
        Key::new(vec![0b0100, 0b0010], vec![2, 2, 2]),
        Key::new(vec![0b1000, 0b0001], vec![4, 4, 4]),
    ];
    let combined = Key::xor_keys(&keys);
    assert_eq!(combined.key, vec![0b1101, 0b0001]);
    assert_eq!(combined.nonce, vec![7, 7, 7]);
}

#[test]
fn xor_keys_twice_the_same_key_is_zero() {
    let combined = Key::xor_keys(&[Key::new(vec![5; 32], vec![6; 12]), Key::new(vec![5; 32], vec![6; 12])]);
    assert_eq!(combined.key, vec![0; 32]);
    assert_eq!(combined.nonce, vec![0; 12]);
}

#[test]
fn xor_keys_does_not_depend_on_order() {
    let a = Key::new((0..32).collect(), (100..112).collect());
    let b = Key::new((50..82).collect(), (7..19).collect());
    let c = Key::new(vec![0xaa; 32], vec![0x55; 12]);
    let orders: [[usize; 3]; 6] = [[0, 1, 2], [0, 2, 1], [1, 0, 2], [1, 2, 0], [2, 0, 1], [2, 1, 0]];
    let all = [a, b, c];
    let first = Key::xor_keys(&[all[0].clone(), all[1].clone(), all[2].clone()]);
    for order in orders {
        let arranged = [all[order[0]].clone(), all[order[1]].clone(), all[order[2]].clone()];
        let combined = Key::xor_keys(&arranged);
        assert_eq!(combined.key, first.key);
        assert_eq!(combined.nonce, first.nonce);
    }
}

#[test]
fn xor_keys_of_unequal_lengths_is_as_long_as_the_longest() {
    let combined = Key::xor_keys(&[Key::new(vec![1], vec![1, 2]), Key::new(vec![1, 2, 3], vec![])]);
    assert_eq!(combined.key, vec![0, 2, 3]);
    assert_eq!(combined.nonce, vec![1, 2]);
}
